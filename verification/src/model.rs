//! The mathematical model of a field, and what holds of a falling piece.

use vstd::prelude::*;

verus! {

/// What stands at one coordinate of a field.
#[derive(Clone, Copy, Debug, PartialEq, Eq, Structural)]
pub enum Cell {
    Piece,
    Terrain,
    Empty,
}

impl Cell {
    /// The symbol that stands for the cell in a text.
    pub open spec fn glyph(self) -> char {
        match self {
            Cell::Piece => 'p',
            Cell::Terrain => '#',
            Cell::Empty => '.',
        }
    }
}

/// A coordinate of the model: `x` counts columns from the left, `y` rows from the top.
pub struct Point {
    pub x: int,
    pub y: int,
}

/// `a` comes before `b` where the rows are read from the top, each from the left.
pub open spec fn precedes(a: Point, b: Point) -> bool {
    a.y < b.y || (a.y == b.y && a.x < b.x)
}

/// `cells` are in the order in which the rows are read, none of them twice.
pub open spec fn row_major(cells: Seq<Point>) -> bool {
    forall|i: int, j: int|
        0 <= i < j < cells.len() ==> precedes(#[trigger] cells[i], #[trigger] cells[j])
}

/// The model of a field: its size, the terrain as a set of coordinates, and
/// the cells of the piece in the order in which they were read.
pub struct FieldView {
    pub width: nat,
    pub height: nat,
    pub terrain: Set<Point>,
    pub piece: Seq<Point>,
}

impl FieldView {
    /// `c` lies on the grid.
    pub open spec fn in_bounds(self, c: Point) -> bool {
        0 <= c.x < self.width && 0 <= c.y < self.height
    }

    /// No cell leaves the grid, and no cell of the piece stands on terrain.
    pub open spec fn wf(self) -> bool {
        &&& self.width > 0
        &&& self.height > 0
        &&& forall|c: Point| #[trigger] self.terrain.contains(c) ==> self.in_bounds(c)
        &&& forall|i: int|
            0 <= i < self.piece.len() ==> self.in_bounds(#[trigger] self.piece[i])
                && !self.terrain.contains(self.piece[i])
    }

    /// The cell below `c` is the floor or terrain.
    pub open spec fn blocked(self, c: Point) -> bool {
        c.y + 1 >= self.height || self.terrain.contains(Point { x: c.x, y: c.y + 1 })
    }

    /// No cell of the piece is blocked. A field without a piece can advance.
    pub open spec fn can_advance(self) -> bool {
        forall|i: int| 0 <= i < self.piece.len() ==> !self.blocked(#[trigger] self.piece[i])
    }

    /// The field with every cell of the piece `k` rows further down.
    pub open spec fn shift(self, k: nat) -> FieldView {
        FieldView {
            piece: Seq::new(
                self.piece.len(),
                |i: int| Point { x: self.piece[i].x, y: self.piece[i].y + k },
            ),
            ..self
        }
    }

    /// The field after one step of the piece.
    pub open spec fn advance(self) -> FieldView {
        self.shift(1)
    }

    /// The piece has come to rest: there is none, or it cannot advance.
    pub open spec fn at_rest(self) -> bool {
        self.piece.len() == 0 || !self.can_advance()
    }

    /// The number of steps that the piece takes until it rests.
    pub open spec fn fall(self) -> nat
        decreases self.height - self.piece[0].y,
    {
        if self.at_rest() {
            0
        } else {
            1 + self.advance().fall()
        }
    }

    /// The field with its piece at rest.
    pub open spec fn settle(self) -> FieldView {
        self.shift(self.fall())
    }

    /// The classification of `(x, y)`: the piece is asked before the terrain.
    pub open spec fn cell_at(self, x: int, y: int) -> Cell {
        if self.piece.contains(Point { x, y }) {
            Cell::Piece
        } else if self.terrain.contains(Point { x, y }) {
            Cell::Terrain
        } else {
            Cell::Empty
        }
    }

    /// The symbols of row `y`, from left to right.
    pub open spec fn render_row(self, y: int) -> Seq<char> {
        Seq::new(self.width, |x: int| self.cell_at(x, y).glyph())
    }

    /// The text of the first `n` rows: each row's symbols and a line feed.
    pub open spec fn render_rows(self, n: nat) -> Seq<char>
        decreases n,
    {
        if n == 0 {
            Seq::empty()
        } else {
            self.render_rows((n - 1) as nat) + self.render_row(n - 1).push('\n')
        }
    }

    /// The text of the field: its rows from the top, without a line for the size.
    pub open spec fn render(self) -> Seq<char> {
        self.render_rows(self.height)
    }

    /// The text of `n` rows holds `width` symbols and a line feed for each.
    pub proof fn lemma_render_len(self, n: nat)
        ensures
            self.render_rows(n).len() == n * (self.width + 1),
        decreases n,
    {
        if n > 0 {
            self.lemma_render_len((n - 1) as nat);
            assert(n * (self.width + 1) == (n - 1) * (self.width + 1) + (self.width + 1))
                by (nonlinear_arith);
        } else {
            assert(0 * (self.width + 1) == 0) by (nonlinear_arith);
        }
    }

    /// The text is made of `height` lines of `width` symbols, each ended by
    /// a line feed: in line `y`, the symbol of `(x, y)` stands at `x`, and
    /// the line feed at `width`.
    pub proof fn lemma_render_shape(self, x: int, y: int)
        requires
            0 <= y < self.height,
            0 <= x <= self.width,
        ensures
            self.render().len() == self.height * (self.width + 1),
            0 <= y * (self.width + 1) + x < self.render().len(),
            self.render()[y * (self.width + 1) + x] == if x < self.width {
                self.cell_at(x, y).glyph()
            } else {
                '\n'
            },
    {
        self.lemma_render_len(self.height);
        self.lemma_render_rows_shape(self.height, x, y);
    }

    proof fn lemma_render_rows_shape(self, n: nat, x: int, y: int)
        requires
            0 <= y < n,
            0 <= x <= self.width,
        ensures
            0 <= y * (self.width + 1) + x < self.render_rows(n).len(),
            self.render_rows(n)[y * (self.width + 1) + x] == if x < self.width {
                self.cell_at(x, y).glyph()
            } else {
                '\n'
            },
        decreases n,
    {
        let above = self.render_rows((n - 1) as nat);
        let line = self.render_row(n - 1).push('\n');
        self.lemma_render_len(n);
        self.lemma_render_len((n - 1) as nat);
        assert(n * (self.width + 1) == (n - 1) * (self.width + 1) + (self.width + 1))
            by (nonlinear_arith);
        if y < n - 1 {
            self.lemma_render_rows_shape((n - 1) as nat, x, y);
            assert(self.render_rows(n)[y * (self.width + 1) + x] == above[y * (self.width + 1)
                + x]);
        } else {
            assert(self.render_rows(n)[above.len() + x] == line[x]);
        }
    }

    /// One step moves every cell of the piece down by exactly one row, in its
    /// column, and leaves the size and the terrain as they were.
    pub proof fn lemma_advance_moves_down(self)
        ensures
            self.advance().width == self.width,
            self.advance().height == self.height,
            self.advance().terrain == self.terrain,
            self.advance().piece.len() == self.piece.len(),
            forall|i: int|
                0 <= i < self.piece.len() ==> (#[trigger] self.advance().piece[i]).x
                    == self.piece[i].x && self.advance().piece[i].y == self.piece[i].y + 1,
    {
    }

    /// Shifting by `a` rows and then by `b` is shifting by `a + b`; shifting
    /// by none changes nothing.
    pub proof fn lemma_shift_add(self, a: nat, b: nat)
        ensures
            self.shift(a).shift(b) == self.shift(a + b),
            self.shift(0) == self,
    {
        assert(self.shift(a).shift(b).piece =~= self.shift(a + b).piece);
        assert(self.shift(0).piece =~= self.piece);
    }

    /// A step that the piece can take keeps the field well formed.
    pub proof fn lemma_advance_wf(self)
        requires
            self.wf(),
            self.can_advance(),
        ensures
            self.advance().wf(),
    {
        let next = self.advance();
        assert forall|i: int| 0 <= i < next.piece.len() implies next.in_bounds(
            #[trigger] next.piece[i],
        ) && !next.terrain.contains(next.piece[i]) by {
            assert(!self.blocked(self.piece[i]));
            assert(self.in_bounds(self.piece[i]));
        }
    }

    /// The fall ends: the piece takes fewer steps than the field has rows,
    /// for no cell of it passes the last row.
    pub proof fn lemma_fall_bounded(self)
        requires
            self.wf(),
        ensures
            self.fall() < self.height,
            forall|i: int| 0 <= i < self.piece.len() ==> (#[trigger] self.piece[i]).y + self.fall()
                < self.height,
        decreases self.fall(),
    {
        if !self.at_rest() {
            self.lemma_advance_wf();
            self.advance().lemma_fall_bounded();
            assert forall|i: int| 0 <= i < self.piece.len() implies (#[trigger] self.piece[i]).y
                + self.fall() < self.height by {
                assert(self.advance().piece[i].y == self.piece[i].y + 1);
            }
            assert(self.piece[0].y + self.fall() < self.height);
            assert(self.in_bounds(self.piece[0]));
        } else {
            assert forall|i: int| 0 <= i < self.piece.len() implies (#[trigger] self.piece[i]).y
                + self.fall() < self.height by {
                assert(self.in_bounds(self.piece[i]));
            }
        }
    }

    /// Every step on the way down is one that the piece can take, and where
    /// the fall ends the field is well formed and the piece rests.
    pub proof fn lemma_settle_rests(self)
        requires
            self.wf(),
        ensures
            forall|k: nat| k < self.fall() ==> !(#[trigger] self.shift(k)).at_rest(),
            forall|k: nat| k <= self.fall() ==> (#[trigger] self.shift(k)).wf(),
            self.settle().at_rest(),
        decreases self.fall(),
    {
        self.lemma_shift_add(0, 0);
        if !self.at_rest() {
            let next = self.advance();
            self.lemma_advance_wf();
            next.lemma_settle_rests();
            assert forall|k: nat| k < self.fall() implies !(#[trigger] self.shift(k)).at_rest() by {
                if k > 0 {
                    self.lemma_shift_add(1, (k - 1) as nat);
                    assert(!next.shift((k - 1) as nat).at_rest());
                }
            }
            assert forall|k: nat| k <= self.fall() implies (#[trigger] self.shift(k)).wf() by {
                if k > 0 {
                    self.lemma_shift_add(1, (k - 1) as nat);
                    assert(next.shift((k - 1) as nat).wf());
                }
            }
            self.lemma_shift_add(1, next.fall());
        }
    }
}

} // verus!
