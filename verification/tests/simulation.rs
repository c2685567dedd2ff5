use tetris::field::{parse_into_field, Field};
use tetris::landscape::{Landscape, Pixel};
use tetris::model::Cell;
use tetris::format::{parse_bytes, ParseError};

fn field_of(text: &str) -> Field {
    parse_bytes(text.as_bytes()).unwrap()
}

#[test]
fn reads_pieces_and_terrain_in_reading_order() {
    let field = field_of("3 4\n.p.\n.p.\n...\n###");

    assert_eq!(field.width(), 3);
    assert_eq!(field.height(), 4);
    assert_eq!(
        *field.piece(),
        vec![Pixel { x: 1, y: 0 }, Pixel { x: 1, y: 1 }]
    );
    assert_eq!(
        field.landscape(),
        vec![
            Pixel { x: 0, y: 3 },
            Pixel { x: 1, y: 3 },
            Pixel { x: 2, y: 3 }
        ]
    );
}

#[test]
fn classifies_every_cell() {
    let field = field_of("3 2\np#.\n.#p");

    assert_eq!(field.get(0, 0), Cell::Piece);
    assert_eq!(field.get(1, 0), Cell::Terrain);
    assert_eq!(field.get(2, 0), Cell::Empty);
    assert_eq!(field.get(0, 1), Cell::Empty);
    assert_eq!(field.get(1, 1), Cell::Terrain);
    assert_eq!(field.get(2, 1), Cell::Piece);
}

#[test]
fn a_coordinate_off_the_grid_is_empty() {
    let field = field_of("2 2\n##\n##");

    assert_eq!(field.get(2, 0), Cell::Empty);
    assert_eq!(field.get(0, 2), Cell::Empty);
    assert_eq!(field.get(usize::MAX, usize::MAX), Cell::Empty);
}

#[test]
fn the_piece_is_asked_before_the_terrain() {
    let landscape = Landscape::from_cells(2, 1, vec![true, true]);
    let field = Field::with_piece(landscape, vec![Pixel { x: 1, y: 0 }]);

    assert_eq!(field.get(0, 0), Cell::Terrain);
    assert_eq!(field.get(1, 0), Cell::Piece);
    assert_eq!(field.to_string(), "#p\n");
}

#[test]
fn writing_back_gives_the_rows_without_the_first_line() {
    let field = field_of("4 3\n#..#\n....\n.##.");

    assert_eq!(field.piece().len(), 0);
    assert_eq!(field.to_string(), "#..#\n....\n.##.\n");
}

#[test]
fn the_text_has_one_line_feed_after_every_row() {
    let field = field_of("5 2\n  p...#  \n\t.###.\t");
    let text = field.to_string();

    assert_eq!(text, "p...#\n.###.\n");
    assert_eq!(text.len(), 2 * (5 + 1));
}

#[test]
fn one_step_moves_every_cell_one_row_down() {
    let mut field = field_of("3 5\nppp\n.p.\n...\n#.#\n###");
    let before = field.piece().clone();

    field.move_piece();

    let after = field.piece().clone();
    assert_eq!(after.len(), before.len());
    for i in 0..before.len() {
        assert_eq!(after[i].x, before[i].x);
        assert_eq!(after[i].y, before[i].y + 1);
    }
    assert_eq!(field.width(), 3);
    assert_eq!(field.height(), 5);
    assert_eq!(field.to_string(), "...\nppp\n.p.\n#.#\n###\n");
}

#[test]
fn the_piece_falls_until_terrain_stops_it() {
    let mut field = field_of("3 5\nppp\n.p.\n...\n#.#\n###");

    field.play();

    assert_eq!(field.to_string(), "...\n...\nppp\n#p#\n###\n");
    assert_eq!(field.can_move(), false);
}

#[test]
fn the_piece_falls_to_the_floor() {
    let mut field = field_of("2 4\np.\n..\n..\n..");

    field.play();

    assert_eq!(field.to_string(), "..\n..\n..\np.\n");
    assert_eq!(*field.piece(), vec![Pixel { x: 0, y: 3 }]);
    assert_eq!(field.can_move(), false);
}

#[test]
fn the_fall_takes_fewer_steps_than_there_are_rows() {
    let mut field = field_of("1 6\np\n.\n.\n.\n.\n.");
    let mut steps = 0;

    while field.can_move() {
        field.move_piece();
        steps += 1;
        assert!(steps < field.height());
    }

    assert_eq!(steps, 5);
    let mut dropped = field_of("1 6\np\n.\n.\n.\n.\n.");
    dropped.play();
    assert_eq!(dropped.to_string(), field.to_string());
}

#[test]
fn one_blocked_cell_stops_the_whole_piece() {
    let mut field = field_of("3 4\npp.\n#..\n...\n...");

    assert_eq!(field.can_move(), false);
    field.play();
    assert_eq!(field.to_string(), "pp.\n#..\n...\n...\n");
}

#[test]
fn a_piece_above_terrain_rests_at_once() {
    let mut field = field_of("3 5\n...\n...\n...\n#p#\n###");

    assert_eq!(field.can_move(), false);
    field.play();
    assert_eq!(field.to_string(), "...\n...\n...\n#p#\n###\n");
}

#[test]
fn a_field_without_a_piece_can_advance_and_stays_as_it_is() {
    let mut field = field_of("2 2\n..\n#.");

    assert_eq!(field.can_move(), true);
    field.move_piece();
    assert_eq!(field.to_string(), "..\n#.\n");
    field.play();
    assert_eq!(field.to_string(), "..\n#.\n");
    assert_eq!(field.piece().len(), 0);
}

#[test]
fn a_new_field_is_empty() {
    let mut field = Field::new(3, 2);

    assert_eq!(field.width(), 3);
    assert_eq!(field.height(), 2);
    assert_eq!(field.landscape(), vec![]);
    assert_eq!(field.piece().len(), 0);
    assert_eq!(field.to_string(), "...\n...\n");
    field.play();
    assert_eq!(field.to_string(), "...\n...\n");
}

#[test]
fn a_landscape_answers_for_every_coordinate() {
    let landscape = Landscape::from_cells(2, 3, vec![false, true, false, false, true, true]);

    assert_eq!(landscape.width(), 2);
    assert_eq!(landscape.height(), 3);
    assert_eq!(landscape.contains(1, 0), true);
    assert_eq!(landscape.contains(0, 0), false);
    assert_eq!(landscape.contains(0, 2), true);
    assert_eq!(landscape.contains(1, 2), true);
    assert_eq!(landscape.contains(2, 0), false);
    assert_eq!(landscape.contains(0, 3), false);
    assert_eq!(
        landscape.cells(),
        vec![
            Pixel { x: 1, y: 0 },
            Pixel { x: 0, y: 2 },
            Pixel { x: 1, y: 2 }
        ]
    );
}

#[test]
fn the_text_of_the_error_names_the_error() {
    assert_eq!(ParseError::MalformedInput.message(), "Invalid input");
    assert_eq!(
        ParseError::MalformedDimensions.message(),
        "Invalid field dimensions"
    );
    assert_eq!(
        ParseError::HeightMismatch.message(),
        "Specified height don't match with the actual one"
    );
    assert_eq!(
        ParseError::WidthMismatch.message(),
        "Specified width don't match with the actual one"
    );
    assert_eq!(
        ParseError::UnexpectedCharacter.message(),
        "Unexpected char in field"
    );
}

#[test]
fn parse_into_field_reports_in_words() {
    assert_eq!(
        parse_into_field("Ronaldo better than Messi").unwrap_err(),
        "Invalid input"
    );
    assert_eq!(
        parse_into_field("mesi -\n.p.").unwrap_err(),
        "Invalid field dimensions"
    );
    assert_eq!(
        parse_into_field("1 1\n#").unwrap().to_string(),
        "#\n"
    );
}
