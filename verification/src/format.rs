//! The text of a field: a first line with the width and the height, then one
//! line for each row, with one symbol for each cell.

use crate::field::Field;
use crate::landscape::{lemma_row_major_index, points, Landscape, Pixel};
use crate::model::{precedes, row_major, Cell, FieldView, Point};
use crate::text::{
    find, find_byte, lemma_split_first, number, parse_number, split, split_spans, trim, trim_span,
    Span,
};
use vstd::prelude::*;

verus! {

/// The symbol of a cell of the piece.
pub const PIECE: u8 = 0x70;

/// The symbol of a cell of terrain.
pub const TERRAIN: u8 = 0x23;

/// The symbol of an empty cell.
pub const EMPTY: u8 = 0x2e;

/// The byte that ends a line.
pub const NEWLINE: u8 = 0x0a;

/// The byte that stands between the width and the height.
pub const SPACE: u8 = 0x20;

/// Why a text is not the text of a field.
#[derive(Clone, Copy, Debug, PartialEq, Eq, Structural)]
pub enum ParseError {
    /// The text has fewer than two lines.
    MalformedInput,
    /// The first line does not give a width and a height, both positive.
    MalformedDimensions,
    /// The number of rows is not the height.
    HeightMismatch,
    /// The length of a row is not the width.
    WidthMismatch,
    /// A row holds a byte that is no symbol.
    UnexpectedCharacter,
}

impl ParseError {
    /// The words in which the error is reported.
    pub open spec fn spec_message(self) -> Seq<char> {
        match self {
            ParseError::MalformedInput => "Invalid input"@,
            ParseError::MalformedDimensions => "Invalid field dimensions"@,
            ParseError::HeightMismatch => "Specified height don't match with the actual one"@,
            ParseError::WidthMismatch => "Specified width don't match with the actual one"@,
            ParseError::UnexpectedCharacter => "Unexpected char in field"@,
        }
    }

    /// The words in which the error is reported.
    pub fn message(self) -> (words: &'static str)
        ensures
            words@ == self.spec_message(),
    {
        match self {
            ParseError::MalformedInput => "Invalid input",
            ParseError::MalformedDimensions => "Invalid field dimensions",
            ParseError::HeightMismatch => "Specified height don't match with the actual one",
            ParseError::WidthMismatch => "Specified width don't match with the actual one",
            ParseError::UnexpectedCharacter => "Unexpected char in field",
        }
    }

    /// No two errors are reported in the same words.
    pub proof fn lemma_message_tells(self, other: ParseError)
        requires
            self.spec_message() == other.spec_message(),
        ensures
            self == other,
    {
        reveal_strlit("Invalid input");
        reveal_strlit("Invalid field dimensions");
        reveal_strlit("Specified height don't match with the actual one");
        reveal_strlit("Specified width don't match with the actual one");
        reveal_strlit("Unexpected char in field");
        let a = self.spec_message();
        let b = other.spec_message();
        assert(a.len() == b.len());
        assert(a[0] == b[0]);
    }
}

/// `b` is one of the three symbols.
pub open spec fn is_symbol(b: u8) -> bool {
    b == PIECE || b == TERRAIN || b == EMPTY
}

/// The width and the height that the first line gives: its first two parts
/// between spaces, each a number that is positive and fits the machine.
/// Further parts are not read.
pub open spec fn dimensions(header: Seq<u8>) -> Option<(nat, nat)> {
    let parts = split(header, SPACE);
    if parts.len() < 2 {
        None
    } else {
        match (number(parts[0]), number(parts[1])) {
            (Some(width), Some(height)) => if 0 < width <= usize::MAX && 0 < height
                <= usize::MAX {
                Some((width, height))
            } else {
                None
            },
            _ => None,
        }
    }
}

/// The rows of a text: its lines but the first, each without the white space around it.
pub open spec fn rows(text: Seq<u8>) -> Seq<Seq<u8>> {
    split(text, NEWLINE).skip(1).map_values(|line: Seq<u8>| trim(line))
}

/// Every row is `width` bytes long.
pub open spec fn uniform(rows: Seq<Seq<u8>>, width: nat) -> bool {
    forall|y: int| 0 <= y < rows.len() ==> (#[trigger] rows[y]).len() == width
}

/// Every byte of every row is a symbol.
pub open spec fn all_symbols(rows: Seq<Seq<u8>>) -> bool {
    forall|y: int, x: int|
        0 <= y < rows.len() && 0 <= x < rows[y].len() ==> is_symbol(#[trigger] rows[y][x])
}

/// The cells of the piece in row `y`, from left to right.
pub open spec fn row_pieces(row: Seq<u8>, y: int) -> Seq<Point>
    decreases row.len(),
{
    if row.len() == 0 {
        Seq::empty()
    } else if row.last() == PIECE {
        row_pieces(row.drop_last(), y).push(Point { x: row.len() - 1, y })
    } else {
        row_pieces(row.drop_last(), y)
    }
}

/// The cells of the piece in `rows`, row by row from the top.
pub open spec fn pieces(rows: Seq<Seq<u8>>) -> Seq<Point>
    decreases rows.len(),
{
    if rows.len() == 0 {
        Seq::empty()
    } else {
        pieces(rows.drop_last()) + row_pieces(rows.last(), rows.len() - 1)
    }
}

/// The coordinates at which `rows` hold terrain.
pub open spec fn terrain(rows: Seq<Seq<u8>>) -> Set<Point> {
    Set::new(
        |c: Point| 0 <= c.y < rows.len() && 0 <= c.x < rows[c.y].len() && rows[c.y][c.x] == TERRAIN,
    )
}

/// The field that `rows` of symbols describe.
pub open spec fn field_of(width: nat, height: nat, rows: Seq<Seq<u8>>) -> FieldView {
    FieldView { width, height, terrain: terrain(rows), piece: pieces(rows) }
}

/// The field that a text describes, or the first reason why it describes
/// none: too few lines, then the first line, then the number of rows, then
/// the length of every row, and only then the symbols.
pub open spec fn parse(text: Seq<u8>) -> Result<FieldView, ParseError> {
    let lines = split(text, NEWLINE);
    if lines.len() < 2 {
        Err(ParseError::MalformedInput)
    } else {
        match dimensions(lines[0]) {
            None => Err(ParseError::MalformedDimensions),
            Some((width, height)) => {
                if rows(text).len() != height {
                    Err(ParseError::HeightMismatch)
                } else if !uniform(rows(text), width) {
                    Err(ParseError::WidthMismatch)
                } else if !all_symbols(rows(text)) {
                    Err(ParseError::UnexpectedCharacter)
                } else {
                    Ok(field_of(width, height, rows(text)))
                }
            },
        }
    }
}

/// A cell of the piece in a row stands in that row, on a symbol of the piece.
pub proof fn lemma_row_pieces(row: Seq<u8>, y: int)
    ensures
        forall|i: int|
            0 <= i < row_pieces(row, y).len() ==> {
                let c = #[trigger] row_pieces(row, y)[i];
                c.y == y && 0 <= c.x < row.len() && row[c.x] == PIECE
            },
    decreases row.len(),
{
    if row.len() > 0 {
        let front = row.drop_last();
        lemma_row_pieces(front, y);
        assert forall|i: int| 0 <= i < row_pieces(row, y).len() implies {
            let c = #[trigger] row_pieces(row, y)[i];
            c.y == y && 0 <= c.x < row.len() && row[c.x] == PIECE
        } by {
            if i < row_pieces(front, y).len() {
                let c = row_pieces(front, y)[i];
                assert(row_pieces(row, y)[i] == c);
                assert(front[c.x] == row[c.x]);
            }
        }
    }
}

/// A cell of the piece stands on the grid, on a symbol of the piece.
pub proof fn lemma_pieces(rows: Seq<Seq<u8>>)
    ensures
        forall|i: int|
            0 <= i < pieces(rows).len() ==> {
                let c = #[trigger] pieces(rows)[i];
                0 <= c.y < rows.len() && 0 <= c.x < rows[c.y].len() && rows[c.y][c.x] == PIECE
            },
    decreases rows.len(),
{
    if rows.len() > 0 {
        let above = rows.drop_last();
        lemma_pieces(above);
        lemma_row_pieces(rows.last(), rows.len() - 1);
        assert forall|i: int| 0 <= i < pieces(rows).len() implies {
            let c = #[trigger] pieces(rows)[i];
            0 <= c.y < rows.len() && 0 <= c.x < rows[c.y].len() && rows[c.y][c.x] == PIECE
        } by {
            if i < pieces(above).len() {
                let c = pieces(above)[i];
                assert(pieces(rows)[i] == c);
                assert(above[c.y] == rows[c.y]);
            } else {
                assert(pieces(rows)[i] == row_pieces(rows.last(), rows.len() - 1)[i - pieces(
                    above,
                ).len()]);
            }
        }
    }
}

/// A text that describes a field describes a well-formed one.
pub proof fn lemma_parse_wf(text: Seq<u8>)
    requires
        parse(text) is Ok,
    ensures
        parse(text)->Ok_0.wf(),
{
    let field = parse(text)->Ok_0;
    lemma_pieces(rows(text));
    assert forall|i: int| 0 <= i < field.piece.len() implies field.in_bounds(
        #[trigger] field.piece[i],
    ) && !field.terrain.contains(field.piece[i]) by {
        let c = field.piece[i];
        assert(rows(text)[c.y].len() == field.width);
    }
    assert forall|c: Point| #[trigger] field.terrain.contains(c) implies field.in_bounds(c) by {
        assert(rows(text)[c.y].len() == field.width);
    }
}

/// A symbol of the piece in a row gives a cell of the piece.
pub proof fn lemma_row_pieces_complete(row: Seq<u8>, y: int, x: int)
    requires
        0 <= x < row.len(),
        row[x] == PIECE,
    ensures
        row_pieces(row, y).contains(Point { x, y }),
    decreases row.len(),
{
    let front = row.drop_last();
    if x < row.len() - 1 {
        lemma_row_pieces_complete(front, y, x);
        let i = choose|i: int|
            0 <= i < row_pieces(front, y).len() && row_pieces(front, y)[i] == (Point { x, y });
        assert(row_pieces(row, y)[i] == Point { x, y });
    } else {
        assert(row_pieces(row, y)[row_pieces(front, y).len() as int] == Point { x, y });
    }
}

/// A symbol of the piece gives a cell of the piece.
pub proof fn lemma_pieces_complete(rows: Seq<Seq<u8>>, x: int, y: int)
    requires
        0 <= y < rows.len(),
        0 <= x < rows[y].len(),
        rows[y][x] == PIECE,
    ensures
        pieces(rows).contains(Point { x, y }),
    decreases rows.len(),
{
    let above = rows.drop_last();
    let last = row_pieces(rows.last(), rows.len() - 1);
    if y < rows.len() - 1 {
        lemma_pieces_complete(above, x, y);
        let i = choose|i: int| 0 <= i < pieces(above).len() && pieces(above)[i] == (Point { x, y });
        assert(pieces(rows)[i] == Point { x, y });
    } else {
        lemma_row_pieces_complete(rows.last(), y, x);
        let i = choose|i: int| 0 <= i < last.len() && last[i] == (Point { x, y });
        assert(pieces(rows)[pieces(above).len() + i] == Point { x, y });
    }
}

/// The cells of the piece come in the order in which the rows are read,
/// from the top and each from the left.
pub proof fn lemma_pieces_in_order(rows: Seq<Seq<u8>>)
    ensures
        row_major(pieces(rows)),
    decreases rows.len(),
{
    if rows.len() > 0 {
        let above = rows.drop_last();
        let y = rows.len() - 1;
        let last = row_pieces(rows.last(), y);
        lemma_pieces_in_order(above);
        lemma_pieces(above);
        lemma_row_pieces_in_order(rows.last(), y);
        lemma_row_pieces(rows.last(), y);
        assert forall|i: int, j: int| 0 <= i < j < pieces(rows).len() implies precedes(
            #[trigger] pieces(rows)[i],
            #[trigger] pieces(rows)[j],
        ) by {
            let n = pieces(above).len() as int;
            if j < n {
                assert(precedes(pieces(above)[i], pieces(above)[j]));
            } else if i < n {
                assert(pieces(rows)[i] == pieces(above)[i]);
                assert(pieces(rows)[j] == last[j - n]);
            } else {
                assert(precedes(last[i - n], last[j - n]));
            }
        }
    }
}

proof fn lemma_row_pieces_in_order(row: Seq<u8>, y: int)
    ensures
        row_major(row_pieces(row, y)),
    decreases row.len(),
{
    if row.len() > 0 {
        let front = row.drop_last();
        lemma_row_pieces_in_order(front, y);
        lemma_row_pieces(front, y);
        assert forall|i: int, j: int| 0 <= i < j < row_pieces(row, y).len() implies precedes(
            #[trigger] row_pieces(row, y)[i],
            #[trigger] row_pieces(row, y)[j],
        ) by {
            let n = row_pieces(front, y).len() as int;
            if j < n {
                assert(precedes(row_pieces(front, y)[i], row_pieces(front, y)[j]));
            } else {
                assert(row_pieces(row, y)[i] == row_pieces(front, y)[i]);
            }
        }
    }
}

/// The symbols of a row as characters.
pub open spec fn row_text(row: Seq<u8>) -> Seq<char> {
    row.map_values(|b: u8| b as char)
}

/// The text of `rows`: each row's symbols and a line feed.
pub open spec fn body_text(rows: Seq<Seq<u8>>) -> Seq<char>
    decreases rows.len(),
{
    if rows.len() == 0 {
        Seq::empty()
    } else {
        body_text(rows.drop_last()) + row_text(rows.last()).push('\n')
    }
}

/// In the field that a text describes, every cell is what its symbol says.
pub proof fn lemma_parsed_cell(text: Seq<u8>, x: int, y: int)
    requires
        parse(text) is Ok,
        0 <= y < rows(text).len(),
        0 <= x < rows(text)[y].len(),
    ensures
        parse(text)->Ok_0.cell_at(x, y).glyph() == rows(text)[y][x] as char,
        rows(text)[y][x] == PIECE <==> parse(text)->Ok_0.cell_at(x, y) == Cell::Piece,
        rows(text)[y][x] == TERRAIN <==> parse(text)->Ok_0.cell_at(x, y) == Cell::Terrain,
        rows(text)[y][x] == EMPTY <==> parse(text)->Ok_0.cell_at(x, y) == Cell::Empty,
{
    let rows = rows(text);
    let field = parse(text)->Ok_0;
    let at = Point { x, y };
    assert(is_symbol(rows[y][x]));
    lemma_pieces(rows);
    if rows[y][x] == PIECE {
        lemma_pieces_complete(rows, x, y);
    } else if field.piece.contains(at) {
        let i = choose|i: int| 0 <= i < field.piece.len() && field.piece[i] == at;
        assert(rows[pieces(rows)[i].y][pieces(rows)[i].x] == PIECE);
    }
}

/// Writing back the field that a text describes gives the rows of the text,
/// symbol for symbol, each with a line feed, and not its first line.
pub proof fn lemma_render_parsed(text: Seq<u8>)
    requires
        parse(text) is Ok,
    ensures
        parse(text)->Ok_0.render() == body_text(rows(text)),
{
    let field = parse(text)->Ok_0;
    lemma_render_rows(text, field.height);
    assert(rows(text).take(field.height as int) =~= rows(text));
}

proof fn lemma_render_rows(text: Seq<u8>, n: nat)
    requires
        parse(text) is Ok,
        n <= rows(text).len(),
    ensures
        parse(text)->Ok_0.render_rows(n) == body_text(rows(text).take(n as int)),
    decreases n,
{
    let rows = rows(text);
    let field = parse(text)->Ok_0;
    if n > 0 {
        lemma_render_rows(text, (n - 1) as nat);
        assert(rows.take(n as int).drop_last() =~= rows.take(n - 1));
        assert(rows.take(n as int).last() == rows[n - 1]);
        assert(rows[n - 1].len() == field.width);
        let symbols = field.render_row(n - 1);
        let wanted = row_text(rows[n - 1]);
        assert forall|x: int| 0 <= x < field.width implies #[trigger] symbols[x] == wanted[x] by {
            lemma_parsed_cell(text, x, n - 1);
        }
        assert(field.render_row(n - 1) =~= row_text(rows[n - 1]));
    }
}

/// A text of fewer than two lines is refused for that, whatever it holds.
pub proof fn lemma_line_count_first(text: Seq<u8>)
    requires
        split(text, NEWLINE).len() < 2,
    ensures
        parse(text) == Err::<FieldView, ParseError>(ParseError::MalformedInput),
{
}

/// A text whose first line gives no size is refused for that, whatever its rows hold.
pub proof fn lemma_dimensions_before_rows(text: Seq<u8>)
    requires
        split(text, NEWLINE).len() >= 2,
        dimensions(split(text, NEWLINE)[0]) is None,
    ensures
        parse(text) == Err::<FieldView, ParseError>(ParseError::MalformedDimensions),
{
}

/// A text whose rows do not have the size that its first line gives is
/// refused for that, the height before the width, whatever symbols the rows hold.
pub proof fn lemma_size_before_symbols(text: Seq<u8>)
    requires
        split(text, NEWLINE).len() >= 2,
        dimensions(split(text, NEWLINE)[0]) matches Some((width, height)) && (rows(text).len()
            != height || !uniform(rows(text), width)),
    ensures
        dimensions(split(text, NEWLINE)[0]) matches Some((width, height)) && parse(text) == Err::<
            FieldView,
            ParseError,
        >(
            if rows(text).len() != height {
                ParseError::HeightMismatch
            } else {
                ParseError::WidthMismatch
            },
        ),
{
}

/// Whether terrain stands at each cell of a row.
pub open spec fn terrain_row(row: Seq<u8>) -> Seq<bool> {
    row.map_values(|b: u8| b == TERRAIN)
}

/// Whether terrain stands at each cell of `rows`, row after row.
pub open spec fn terrain_grid(rows: Seq<Seq<u8>>) -> Seq<bool>
    decreases rows.len(),
{
    if rows.len() == 0 {
        Seq::empty()
    } else {
        terrain_grid(rows.drop_last()) + terrain_row(rows.last())
    }
}

/// In rows of one width, the cell `(x, y)` stands at `y * width + x`.
pub proof fn lemma_terrain_grid(rows: Seq<Seq<u8>>, width: nat, x: int, y: int)
    requires
        uniform(rows, width),
        0 <= y < rows.len(),
        0 <= x < width,
    ensures
        terrain_grid(rows).len() == rows.len() * width,
        0 <= y * width + x < terrain_grid(rows).len(),
        terrain_grid(rows)[y * width + x] == (rows[y][x] == TERRAIN),
    decreases rows.len(),
{
    let above = rows.drop_last();
    let n = above.len() as int;
    lemma_terrain_grid_len(above, width);
    lemma_terrain_grid_len(rows, width);
    assert(rows.last().len() == width);
    assert((n + 1) * width == n * width + width) by (nonlinear_arith);
    if y < n {
        lemma_terrain_grid(above, width, x, y);
        assert(above[y] == rows[y]);
    } else {
        assert(terrain_grid(rows)[n * width + x] == terrain_row(rows.last())[x]);
    }
}

/// Rows of one width hold that many cells each.
pub proof fn lemma_terrain_grid_len(rows: Seq<Seq<u8>>, width: nat)
    requires
        uniform(rows, width),
    ensures
        terrain_grid(rows).len() == rows.len() * width,
    decreases rows.len(),
{
    if rows.len() > 0 {
        let above = rows.drop_last();
        let n = above.len() as int;
        lemma_terrain_grid_len(above, width);
        assert(rows.last().len() == width);
        assert((n + 1) * width == n * width + width) by (nonlinear_arith);
    } else {
        assert(0 * width == 0) by (nonlinear_arith);
    }
}

/// The stretches of `text` that `spans` name.
pub open spec fn stretches(text: Seq<u8>, spans: Seq<Span>) -> Seq<Seq<u8>> {
    spans.map_values(|s: Span| s.of(text))
}

/// The first two parts of a line are what stands before its first space
/// and, after that space, before the next.
proof fn lemma_first_parts(line: Seq<u8>)
    ensures
        split(line, SPACE).len() >= 2 <==> find(line, SPACE) < line.len(),
        find(line, SPACE) < line.len() ==> {
            let rest = line.skip(find(line, SPACE) as int + 1);
            split(line, SPACE)[0] == line.take(find(line, SPACE) as int) && split(line, SPACE)[1]
                == rest.take(find(rest, SPACE) as int)
        },
{
    lemma_split_first(line, SPACE);
    let n = find(line, SPACE) as int;
    if n < line.len() {
        lemma_split_first(line.skip(n + 1), SPACE);
    }
}

/// Reads the width and the height from the first line, the stretch `header` of `text`.
pub fn read_dimensions(text: &[u8], header: Span) -> (size: Option<(usize, usize)>)
    requires
        header.within(text@.len()),
    ensures
        size == match dimensions(header.of(text@)) {
            Some((width, height)) => Some((width as usize, height as usize)),
            None => None::<(usize, usize)>,
        },
{
    let ghost line = header.of(text@);
    proof {
        lemma_first_parts(line);
    }
    let gap = find_byte(text, header.start, header.end, SPACE);
    if gap == header.end {
        return None;
    }
    let next = find_byte(text, gap + 1, header.end, SPACE);
    proof {
        assert(line.take(gap - header.start) =~= text@.subrange(header.start as int, gap as int));
        assert(line.skip(gap - header.start + 1) =~= text@.subrange(gap + 1, header.end as int));
        assert(line.skip(gap - header.start + 1).take(next - gap - 1) =~= text@.subrange(
            gap + 1,
            next as int,
        ));
    }
    let width = parse_number(text, Span { start: header.start, end: gap });
    let height = parse_number(text, Span { start: gap + 1, end: next });
    match (width, height) {
        (Some(w), Some(h)) => if w > 0 && h > 0 {
            Some((w, h))
        } else {
            None
        },
        _ => None,
    }
}

/// Takes the white space from around every line but the first, and tells
/// whether each is then `width` bytes long.
pub fn trim_rows(text: &[u8], lines: &Vec<Span>, width: usize) -> (found: Option<Vec<Span>>)
    requires
        lines@.len() >= 1,
        forall|k: int| 0 <= k < lines@.len() ==> (#[trigger] lines@[k]).within(text@.len()),
    ensures
        found is Some <==> uniform(
            stretches(text@, lines@).skip(1).map_values(|line: Seq<u8>| trim(line)),
            width as nat,
        ),
        found matches Some(inner) ==> {
            &&& forall|y: int| 0 <= y < inner@.len() ==> (#[trigger] inner@[y]).within(text@.len())
            &&& stretches(text@, inner@) == stretches(text@, lines@).skip(1).map_values(
                |line: Seq<u8>| trim(line),
            )
        },
{
    let ghost wanted = stretches(text@, lines@).skip(1).map_values(|line: Seq<u8>| trim(line));
    let mut inner: Vec<Span> = Vec::new();
    let mut k: usize = 1;
    while k < lines.len()
        invariant
            1 <= k <= lines@.len(),
            inner@.len() == k - 1,
            wanted == stretches(text@, lines@).skip(1).map_values(|line: Seq<u8>| trim(line)),
            forall|k: int| 0 <= k < lines@.len() ==> (#[trigger] lines@[k]).within(text@.len()),
            forall|y: int|
                0 <= y < inner@.len() ==> (#[trigger] inner@[y]).within(text@.len())
                    && inner@[y].of(text@) == wanted[y],
            forall|y: int| 0 <= y < inner@.len() ==> (#[trigger] wanted[y]).len() == width,
        decreases lines@.len() - k,
    {
        let row = trim_span(text, lines[k]);
        assert(row.of(text@) == wanted[k - 1]);
        if row.end - row.start != width {
            return None;
        }
        inner.push(row);
        k += 1;
    }
    assert(stretches(text@, inner@) =~= wanted);
    Some(inner)
}

/// Reads the symbols of row `y`, the stretch `row` of `text`: what it holds
/// of terrain is added to `cells`, and its cells of the piece to `piece`.
/// Tells whether every byte of the row is a symbol; where one is not, the
/// row is given up.
fn read_row(
    text: &[u8],
    row: Span,
    y: usize,
    cells: &mut Vec<bool>,
    piece: &mut Vec<Pixel>,
) -> (clean: bool)
    requires
        row.within(text@.len()),
    ensures
        clean <==> forall|x: int| 0 <= x < row.of(text@).len() ==> is_symbol(row.of(text@)[x]),
        clean ==> final(cells)@ == old(cells)@ + terrain_row(row.of(text@)),
        clean ==> points(final(piece)@) == points(old(piece)@) + row_pieces(
            row.of(text@),
            y as int,
        ),
{
    let ghost line = row.of(text@);
    let mut i: usize = row.start;
    proof {
        assert(cells@ + terrain_row(line.take(0)) =~= cells@);
        assert(points(piece@) + row_pieces(line.take(0), y as int) =~= points(piece@));
    }
    while i < row.end
        invariant
            row.start <= i <= row.end <= text@.len(),
            line == row.of(text@),
            forall|x: int| 0 <= x < i - row.start ==> is_symbol(line[x]),
            cells@ == old(cells)@ + terrain_row(line.take(i - row.start)),
            points(piece@) == points(old(piece)@) + row_pieces(line.take(i - row.start), y as int),
        decreases row.end - i,
    {
        let b = text[i];
        let ghost x = i - row.start;
        assert(line[x] == b);
        proof {
            assert(line.take(x + 1).drop_last() =~= line.take(x));
            assert(terrain_row(line.take(x + 1)) =~= terrain_row(line.take(x)).push(b == TERRAIN));
            assert((old(cells)@ + terrain_row(line.take(x))).push(b == TERRAIN) =~= old(cells)@
                + terrain_row(line.take(x + 1)));
        }
        if b == PIECE {
            piece.push(Pixel { x: i - row.start, y });
            proof {
                let at = Point { x, y: y as int };
                assert(points(piece@) =~= (points(old(piece)@) + row_pieces(
                    line.take(x),
                    y as int,
                )).push(at));
                assert((points(old(piece)@) + row_pieces(line.take(x), y as int)).push(at)
                    =~= points(old(piece)@) + row_pieces(line.take(x + 1), y as int));
            }
        } else if b != TERRAIN && b != EMPTY {
            return false;
        }
        cells.push(b == TERRAIN);
        i += 1;
    }
    assert(line.take(i - row.start) =~= line);
    true
}

/// Reads the symbols of all rows, the stretches `rows` of `text`: where
/// terrain stands, row after row, and the cells of the piece. There is no
/// result where a byte of a row is no symbol.
pub fn read_rows(text: &[u8], rows: &Vec<Span>) -> (found: Option<(Vec<bool>, Vec<Pixel>)>)
    requires
        forall|y: int| 0 <= y < rows@.len() ==> (#[trigger] rows@[y]).within(text@.len()),
    ensures
        found is Some <==> all_symbols(stretches(text@, rows@)),
        found matches Some((cells, piece)) ==> cells@ == terrain_grid(stretches(text@, rows@))
            && points(piece@) == pieces(stretches(text@, rows@)),
{
    let ghost all = stretches(text@, rows@);
    let mut cells: Vec<bool> = Vec::new();
    let mut piece: Vec<Pixel> = Vec::new();
    let mut y: usize = 0;
    proof {
        assert(points(piece@) =~= pieces(all.take(0)));
    }
    while y < rows.len()
        invariant
            y <= rows@.len(),
            all == stretches(text@, rows@),
            forall|y: int| 0 <= y < rows@.len() ==> (#[trigger] rows@[y]).within(text@.len()),
            all_symbols(all.take(y as int)),
            cells@ == terrain_grid(all.take(y as int)),
            points(piece@) == pieces(all.take(y as int)),
        decreases rows@.len() - y,
    {
        let clean = read_row(text, rows[y], y, &mut cells, &mut piece);
        assert(rows@[y as int].of(text@) == all[y as int]);
        if !clean {
            return None;
        }
        proof {
            let seen = all.take(y + 1);
            assert(seen.drop_last() =~= all.take(y as int));
            assert(seen.last() == all[y as int]);
            assert forall|r: int, x: int|
                0 <= r < seen.len() && 0 <= x < seen[r].len() implies is_symbol(
                #[trigger] seen[r][x],
            ) by {
                if r < y {
                    assert(seen[r] == all.take(y as int)[r]);
                }
            }
        }
        y += 1;
    }
    assert(all.take(y as int) =~= all);
    Some((cells, piece))
}

/// Reads the text of a field.
pub fn parse_bytes(text: &[u8]) -> (parsed: Result<Field, ParseError>)
    ensures
        match parsed {
            Ok(field) => parse(text@) == Ok::<FieldView, ParseError>(field@) && field@.wf(),
            Err(e) => parse(text@) == Err::<FieldView, ParseError>(e),
        },
{
    let lines = split_spans(text, NEWLINE);
    assert(stretches(text@, lines@) =~= split(text@, NEWLINE));
    if lines.len() < 2 {
        return Err(ParseError::MalformedInput);
    }
    let (width, height) = match read_dimensions(text, lines[0]) {
        Some(size) => size,
        None => {
            return Err(ParseError::MalformedDimensions);
        },
    };
    if lines.len() - 1 != height {
        return Err(ParseError::HeightMismatch);
    }
    let rows = match trim_rows(text, &lines, width) {
        Some(rows) => rows,
        None => {
            return Err(ParseError::WidthMismatch);
        },
    };
    assert(stretches(text@, rows@) == self::rows(text@));
    let (cells, piece) = match read_rows(text, &rows) {
        Some(read) => read,
        None => {
            return Err(ParseError::UnexpectedCharacter);
        },
    };
    proof {
        lemma_terrain_grid_len(self::rows(text@), width as nat);
        lemma_parse_wf(text@);
        assert(height * width == width * height) by (nonlinear_arith);
    }
    let landscape = Landscape::from_cells(width, height, cells);
    assert forall|c: Point| landscape@.contains(c) == terrain(self::rows(text@)).contains(c) by {
        if 0 <= c.x < width && 0 <= c.y < height {
            lemma_terrain_grid(self::rows(text@), width as nat, c.x, c.y);
        }
    }
    assert(landscape@ =~= terrain(self::rows(text@)));
    Ok(Field::with_piece(landscape, piece))
}

} // verus!
