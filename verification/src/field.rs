//! The field: terrain and one falling piece, and the operations on them.

use crate::format::{parse, parse_bytes, ParseError};
use crate::landscape::{lemma_row_major_index, points, Landscape, Pixel};
use crate::model::{row_major, Cell, FieldView, Point};
use vstd::prelude::*;
use vstd::string::{StringExecFns, StringSliceAdditionalSpecFns};

verus! {

/// A field: a grid of fixed size with static terrain and one falling piece.
#[derive(Debug)]
pub struct Field {
    landscape: Landscape,
    piece: Vec<Pixel>,
}

impl View for Field {
    type V = FieldView;

    closed spec fn view(&self) -> FieldView {
        FieldView {
            width: self.landscape.spec_width() as nat,
            height: self.landscape.spec_height() as nat,
            terrain: self.landscape@,
            piece: points(self.piece@),
        }
    }
}

impl Field {
    /// The field of `width` by `height` without terrain and without a piece.
    pub fn new(width: usize, height: usize) -> (field: Field)
        requires
            0 < width,
            0 < height,
            width * height <= usize::MAX,
        ensures
            field@ == (FieldView {
                width: width as nat,
                height: height as nat,
                terrain: Set::empty(),
                piece: Seq::empty(),
            }),
            field@.wf(),
    {
        let size = width * height;
        let mut cells: Vec<bool> = Vec::new();
        while cells.len() < size
            invariant
                cells.len() <= size,
                forall|i: int| 0 <= i < cells.len() ==> !cells@[i],
            decreases size - cells.len(),
        {
            cells.push(false);
        }
        let landscape = Landscape::from_cells(width, height, cells);
        let piece: Vec<Pixel> = Vec::new();
        proof {
            assert forall|c: Point| !landscape@.contains(c) by {
                if 0 <= c.x < width && 0 <= c.y < height {
                    lemma_row_major_index(c.x, c.y, width as int, height as int);
                }
            }
            assert(landscape@ =~= Set::empty());
            assert(points(piece@) =~= Seq::empty());
        }
        Field { landscape, piece }
    }

    /// The field with the given terrain and the given cells of the piece,
    /// wherever they stand.
    pub fn with_piece(landscape: Landscape, piece: Vec<Pixel>) -> (field: Field)
        ensures
            field@ == (FieldView {
                width: landscape.spec_width() as nat,
                height: landscape.spec_height() as nat,
                terrain: landscape@,
                piece: points(piece@),
            }),
            forall|c: Point| #[trigger] field@.terrain.contains(c) ==> field@.in_bounds(c),
    {
        proof {
            landscape.lemma_on_grid();
        }
        Field { landscape, piece }
    }

    /// The classification of `(x, y)`; a coordinate off the grid is empty
    /// unless a cell of the piece stands there.
    pub fn get(&self, x: usize, y: usize) -> (cell: Cell)
        ensures
            cell == self@.cell_at(x as int, y as int),
    {
        let mut i: usize = 0;
        while i < self.piece.len()
            invariant
                i <= self.piece.len(),
                forall|j: int|
                    0 <= j < i ==> self.piece@[j]@ != (Point { x: x as int, y: y as int }),
            decreases self.piece.len() - i,
        {
            if self.piece[i].x == x && self.piece[i].y == y {
                assert(self@.piece[i as int] == Point { x: x as int, y: y as int });
                return Cell::Piece;
            }
            i += 1;
        }
        assert(!self@.piece.contains(Point { x: x as int, y: y as int }));
        if self.landscape.contains(x, y) {
            Cell::Terrain
        } else {
            Cell::Empty
        }
    }

    /// The number of columns.
    pub fn width(&self) -> (w: usize)
        ensures
            w == self@.width,
    {
        self.landscape.width()
    }

    /// The number of rows.
    pub fn height(&self) -> (h: usize)
        ensures
            h == self@.height,
    {
        self.landscape.height()
    }

    /// The cells of the piece, in the order in which they were given.
    pub fn piece(&self) -> (cells: &Vec<Pixel>)
        ensures
            points(cells@) == self@.piece,
    {
        &self.piece
    }

    /// The cells of terrain, row by row from the top and from left to right.
    pub fn landscape(&self) -> (cells: Vec<Pixel>)
        ensures
            row_major(points(cells@)),
            forall|c: Point| points(cells@).contains(c) <==> self@.terrain.contains(c),
    {
        self.landscape.cells()
    }

    /// The text of the field: one line for each row, one symbol for each
    /// cell, a line feed after every row.
    pub fn to_string(&self) -> (text: String)
        ensures
            text@ == self@.render(),
    {
        let width = self.width();
        let height = self.height();
        let mut text = String::new();
        let mut y: usize = 0;
        while y < height
            invariant
                y <= height,
                width == self@.width,
                height == self@.height,
                text@ == self@.render_rows(y as nat),
            decreases height - y,
        {
            let ghost above = text@;
            let mut x: usize = 0;
            while x < width
                invariant
                    x <= width,
                    width == self@.width,
                    text@ == above + self@.render_row(y as int).take(x as int),
                decreases width - x,
            {
                let ghost before = text@;
                match self.get(x, y) {
                    Cell::Piece => {
                        proof {
                            reveal_strlit("p");
                        }
                        text.append("p");
                        assert(text@ =~= before.push('p'));
                    },
                    Cell::Terrain => {
                        proof {
                            reveal_strlit("#");
                        }
                        text.append("#");
                        assert(text@ =~= before.push('#'));
                    },
                    Cell::Empty => {
                        proof {
                            reveal_strlit(".");
                        }
                        text.append(".");
                        assert(text@ =~= before.push('.'));
                    },
                }
                assert(text@ =~= above + self@.render_row(y as int).take(x + 1));
                x += 1;
            }
            proof {
                reveal_strlit("\n");
            }
            text.append("\n");
            assert(text@ =~= above + self@.render_row(y as int).push('\n'));
            y += 1;
        }
        text
    }

    /// Whether every cell of the piece has a free cell of the grid below it.
    pub fn can_move(&self) -> (free: bool)
        requires
            self@.wf(),
        ensures
            free == self@.can_advance(),
    {
        let height = self.landscape.height();
        let mut i: usize = 0;
        while i < self.piece.len()
            invariant
                i <= self.piece.len(),
                self@.wf(),
                height == self@.height,
                forall|j: int| 0 <= j < i ==> !self@.blocked(#[trigger] self@.piece[j]),
            decreases self.piece.len() - i,
        {
            let p = self.piece[i];
            assert(self@.in_bounds(self@.piece[i as int]));
            if p.y + 1 == height || self.landscape.contains(p.x, p.y + 1) {
                assert(self@.blocked(self@.piece[i as int]));
                return false;
            }
            i += 1;
        }
        true
    }

    /// Moves every cell of the piece one row down, whatever stands there.
    pub fn move_piece(&mut self)
        requires
            old(self)@.wf(),
        ensures
            final(self)@ == old(self)@.advance(),
            old(self)@.can_advance() ==> final(self)@.wf(),
    {
        proof {
            if self@.can_advance() {
                self@.lemma_advance_wf();
            }
        }
        let mut i: usize = 0;
        while i < self.piece.len()
            invariant
                i <= self.piece.len(),
                self.landscape == old(self).landscape,
                self.piece.len() == old(self).piece.len(),
                old(self)@.wf(),
                forall|j: int| 0 <= j < i ==> self.piece@[j]@ == old(self)@.advance().piece[j],
                forall|j: int| i <= j < self.piece.len() ==> self.piece@[j] == old(self).piece@[j],
            decreases self.piece.len() - i,
        {
            assert(old(self)@.in_bounds(old(self)@.piece[i as int]));
            let p = self.piece[i];
            self.piece.set(i, Pixel { x: p.x, y: p.y + 1 });
            i += 1;
        }
        assert(self@.piece =~= old(self)@.advance().piece);
    }

    /// Drops the piece: it advances until it rests, which takes fewer
    /// steps than the field has rows. A field without a piece is left as it is.
    pub fn play(&mut self)
        requires
            old(self)@.wf(),
        ensures
            final(self)@ == old(self)@.settle(),
            old(self)@.fall() < old(self)@.height,
            final(self)@.wf(),
            final(self)@.at_rest(),
    {
        let ghost start = self@;
        let ghost mut steps: nat = 0;
        proof {
            start.lemma_shift_add(0, 0);
            start.lemma_fall_bounded();
        }
        while self.piece.len() > 0 && self.can_move()
            invariant
                start.wf(),
                self@.wf(),
                self@ == start.shift(steps),
                steps + self@.fall() == start.fall(),
            decreases self@.fall(),
        {
            proof {
                self@.lemma_advance_wf();
                start.lemma_shift_add(steps, 1);
                steps = steps + 1;
            }
            self.move_piece();
        }
        assert(self@.at_rest());
    }
}

/// Reads the text of a field. Where the text describes none, the result is
/// the message of the first reason why.
pub fn parse_into_field<'a>(input: &'a str) -> (parsed: Result<Field, &'a str>)
    ensures
        match parsed {
            Ok(field) => parse(input.spec_bytes()) == Ok::<FieldView, ParseError>(field@)
                && field@.wf(),
            Err(words) => parse(input.spec_bytes()) is Err && words@ == parse(
                input.spec_bytes(),
            )->Err_0.spec_message(),
        },
{
    match parse_bytes(input.as_bytes()) {
        Ok(field) => Ok(field),
        Err(e) => Err(e.message()),
    }
}

} // verus!
