//! Static terrain, kept as one entry for each coordinate of the grid.

use crate::model::{row_major, precedes, Point};
use vstd::prelude::*;

verus! {

/// A coordinate of the grid.
#[derive(Clone, Copy, Debug, PartialEq, Eq, Structural)]
pub struct Pixel {
    pub x: usize,
    pub y: usize,
}

impl View for Pixel {
    type V = Point;

    open spec fn view(&self) -> Point {
        Point { x: self.x as int, y: self.y as int }
    }
}

/// The coordinates of `pixels`, in their order.
pub open spec fn points(pixels: Seq<Pixel>) -> Seq<Point> {
    pixels.map_values(|p: Pixel| p@)
}

/// A coordinate on a grid of `width` by `height` has its row-major index on the grid.
pub proof fn lemma_row_major_index(x: int, y: int, width: int, height: int)
    requires
        0 <= x < width,
        0 <= y < height,
    ensures
        0 <= y * width <= y * width + x < width * height,
{
    assert(0 <= y * width && (y + 1) * width <= height * width) by (nonlinear_arith)
        requires
            0 <= y < height,
            0 < width,
    ;
    assert((y + 1) * width == y * width + width) by (nonlinear_arith);
    assert(height * width == width * height) by (nonlinear_arith);
}

/// Static terrain on a grid of fixed size, with membership in constant time.
#[derive(Debug)]
pub struct Landscape {
    width: usize,
    height: usize,
    /// One entry per coordinate, row by row; `true` where terrain stands.
    cells: Vec<bool>,
}

impl View for Landscape {
    type V = Set<Point>;

    closed spec fn view(&self) -> Set<Point> {
        Set::new(
            |c: Point|
                0 <= c.x < self.width && 0 <= c.y < self.height && self.cells@[c.y * self.width
                    + c.x],
        )
    }
}

impl Landscape {
    /// There is one entry for each coordinate of the grid.
    #[verifier::type_invariant]
    spec fn grid_inv(self) -> bool {
        self.cells.len() == self.width * self.height
    }

    /// The number of columns.
    pub closed spec fn spec_width(&self) -> usize {
        self.width
    }

    /// The number of rows.
    pub closed spec fn spec_height(&self) -> usize {
        self.height
    }

    /// Terrain stands on the grid only.
    pub proof fn lemma_on_grid(&self)
        ensures
            forall|c: Point|
                self@.contains(c) ==> 0 <= c.x < self.spec_width() && 0 <= c.y
                    < self.spec_height(),
    {
    }

    /// The landscape of `width` by `height` whose rows, one after the other, are `cells`.
    pub fn from_cells(width: usize, height: usize, cells: Vec<bool>) -> (land: Landscape)
        requires
            cells.len() == width * height,
        ensures
            land.spec_width() == width,
            land.spec_height() == height,
            forall|c: Point|
                land@.contains(c) <==> 0 <= c.x < width && 0 <= c.y < height && cells@[c.y * width
                    + c.x],
    {
        Landscape { width, height, cells }
    }

    /// The number of columns.
    #[verifier::when_used_as_spec(spec_width)]
    pub fn width(&self) -> (w: usize)
        ensures
            w == self.spec_width(),
    {
        self.width
    }

    /// The number of rows.
    #[verifier::when_used_as_spec(spec_height)]
    pub fn height(&self) -> (h: usize)
        ensures
            h == self.spec_height(),
    {
        self.height
    }

    /// The cells of terrain, row by row from the top and from left to right.
    pub fn cells(&self) -> (cells: Vec<Pixel>)
        ensures
            row_major(points(cells@)),
            forall|c: Point| points(cells@).contains(c) <==> self@.contains(c),
    {
        proof {
            use_type_invariant(self);
        }
        let mut cells: Vec<Pixel> = Vec::new();
        let mut y: usize = 0;
        while y < self.height
            invariant
                y <= self.height,
                self.cells.len() == self.width * self.height,
                row_major(points(cells@)),
                forall|i: int| 0 <= i < cells@.len() ==> (#[trigger] cells@[i]).y < y,
                forall|c: Point| points(cells@).contains(c) <==> self@.contains(c) && c.y < y,
            decreases self.height - y,
        {
            let mut x: usize = 0;
            while x < self.width
                invariant
                    y < self.height,
                    x <= self.width,
                    self.cells.len() == self.width * self.height,
                    row_major(points(cells@)),
                    forall|i: int|
                        0 <= i < cells@.len() ==> (#[trigger] cells@[i]).y < y || (cells@[i].y == y
                            && cells@[i].x < x),
                    forall|c: Point|
                        points(cells@).contains(c) <==> self@.contains(c) && (c.y < y || (c.y == y
                            && c.x < x)),
                decreases self.width - x,
            {
                proof {
                    lemma_row_major_index(
                        x as int,
                        y as int,
                        self.width as int,
                        self.height as int,
                    );
                }
                let ghost before = points(cells@);
                if self.cells[y * self.width + x] {
                    cells.push(Pixel { x, y });
                    proof {
                        let at = Point { x: x as int, y: y as int };
                        assert(points(cells@) =~= before.push(at));
                        assert forall|c: Point| points(cells@).contains(c) <==> before.contains(c)
                            || c == at by {
                            if before.contains(c) {
                                let i = choose|i: int| 0 <= i < before.len() && before[i] == c;
                                assert(points(cells@)[i] == c);
                            }
                            if c == at {
                                assert(points(cells@)[before.len() as int] == c);
                            }
                        }
                        assert forall|i: int, j: int| 0 <= i < j < cells@.len() implies precedes(
                            #[trigger] points(cells@)[i],
                            #[trigger] points(cells@)[j],
                        ) by {
                            if j < before.len() {
                                assert(precedes(before[i], before[j]));
                            } else {
                                assert(points(cells@)[i] == cells@[i]@);
                            }
                        }
                    }
                }
                x += 1;
            }
            y += 1;
        }
        cells
    }

    /// Whether terrain stands at `(x, y)`; none stands off the grid.
    pub fn contains(&self, x: usize, y: usize) -> (found: bool)
        ensures
            found == self@.contains(Point { x: x as int, y: y as int }),
    {
        proof {
            use_type_invariant(self);
        }
        if x < self.width && y < self.height {
            proof {
                lemma_row_major_index(x as int, y as int, self.width as int, self.height as int);
            }
            self.cells[y * self.width + x]
        } else {
            false
        }
    }
}

} // verus!
