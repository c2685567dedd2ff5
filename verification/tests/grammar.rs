use tetris::format::{parse_bytes, read_dimensions, read_rows, trim_rows, ParseError};
use tetris::landscape::Pixel;
use tetris::text::{
    find_byte, leading_space, parse_number, split_spans, trailing_space, trim_span, Span,
};

fn error_of(text: &str) -> ParseError {
    parse_bytes(text.as_bytes()).unwrap_err()
}

fn whole(text: &str) -> Span {
    Span {
        start: 0,
        end: text.len(),
    }
}

#[test]
fn a_text_of_one_line_is_malformed() {
    assert_eq!(error_of(""), ParseError::MalformedInput);
    assert_eq!(error_of("3 4"), ParseError::MalformedInput);
    assert_eq!(
        error_of("Ronaldo better than Messi"),
        ParseError::MalformedInput
    );
}

#[test]
fn the_line_count_is_judged_before_the_first_line() {
    assert_eq!(error_of("mesi -"), ParseError::MalformedInput);
    assert_eq!(error_of("mesi -\n"), ParseError::MalformedDimensions);
}

#[test]
fn a_first_line_without_two_positive_numbers_is_refused() {
    assert_eq!(error_of("mesi -\n.p."), ParseError::MalformedDimensions);
    assert_eq!(error_of("3\n..."), ParseError::MalformedDimensions);
    assert_eq!(error_of("3 \n..."), ParseError::MalformedDimensions);
    assert_eq!(error_of(" 3 1\n..."), ParseError::MalformedDimensions);
    assert_eq!(error_of("3  1\n..."), ParseError::MalformedDimensions);
    assert_eq!(error_of("3\t1\n..."), ParseError::MalformedDimensions);
    assert_eq!(error_of("3 1\r\n..."), ParseError::MalformedDimensions);
    assert_eq!(error_of("-3 1\n..."), ParseError::MalformedDimensions);
    assert_eq!(error_of("3 1x\n..."), ParseError::MalformedDimensions);
    assert_eq!(error_of("+ 1\n..."), ParseError::MalformedDimensions);
    assert_eq!(error_of("0 1\n"), ParseError::MalformedDimensions);
    assert_eq!(error_of("1 0\n"), ParseError::MalformedDimensions);
    assert_eq!(
        error_of("340282366920938463463374607431768211456 1\n."),
        ParseError::MalformedDimensions
    );
}

#[test]
fn the_first_line_is_judged_before_the_rows() {
    assert_eq!(error_of("x y\n.p.\nMM"), ParseError::MalformedDimensions);
}

#[test]
fn a_sign_leading_zeros_and_further_parts_are_taken() {
    assert_eq!(
        parse_bytes("+2 +1\n.#".as_bytes()).unwrap().to_string(),
        ".#\n"
    );
    assert_eq!(
        parse_bytes("002 01\n.#".as_bytes()).unwrap().to_string(),
        ".#\n"
    );
    assert_eq!(
        parse_bytes("2 1 7 x\n.#".as_bytes()).unwrap().to_string(),
        ".#\n"
    );
}

#[test]
fn the_number_of_rows_is_judged_before_their_length() {
    assert_eq!(error_of("3 5\n.p.\n...\n...\n###"), ParseError::HeightMismatch);
    assert_eq!(error_of("3 2\n.\n..\n...."), ParseError::HeightMismatch);
    assert_eq!(error_of("1 1\n#\n"), ParseError::HeightMismatch);
    assert_eq!(error_of("1 2\n#"), ParseError::HeightMismatch);
}

#[test]
fn the_length_of_every_row_is_judged_before_any_symbol() {
    assert_eq!(error_of("2 4\n.p.\n...\n...\n###"), ParseError::WidthMismatch);
    assert_eq!(error_of("3 2\n.M.\n.."), ParseError::WidthMismatch);
    assert_eq!(error_of("3 2\n...\n...."), ParseError::WidthMismatch);
    assert_eq!(error_of("1 1\n"), ParseError::WidthMismatch);
}

#[test]
fn a_byte_that_is_no_symbol_is_refused() {
    assert_eq!(
        error_of("3 4\n.M.\n.E.\n.S.\n#I#"),
        ParseError::UnexpectedCharacter
    );
    assert_eq!(error_of("3 1\n.P."), ParseError::UnexpectedCharacter);
    assert_eq!(error_of("3 1\n. ."), ParseError::UnexpectedCharacter);
    assert_eq!(error_of("2 1\n\u{e9}"), ParseError::UnexpectedCharacter);
}

#[test]
fn white_space_around_a_row_does_not_count() {
    let text = "2 3\n  p#\t\n\u{b}.#\u{c}\r\n\u{a0}\u{1680}..\u{2003}\u{3000}\u{85}";
    let lines: Vec<&str> = text.split('\n').collect();
    assert_eq!(lines.len(), 4);
    for line in &lines[1..] {
        assert_eq!(line.trim().len(), 2);
    }
    assert_eq!(
        parse_bytes(text.as_bytes()).unwrap().to_string(),
        "p#\n.#\n..\n"
    );
}

#[test]
fn trimming_agrees_with_the_standard_library() {
    let samples = [
        "",
        " ",
        "  \t ",
        "ab",
        " a b ",
        "\u{2028}x\u{2029}",
        "\u{202f}\u{205f}y z\u{2000}\u{200a}",
        "\u{200b}x\u{200b}",
        "\u{e9}\u{a0}",
        "\u{a0}\u{e9}",
        "\u{1680}\u{1681}",
        "\u{3000}\u{3001}\u{3000}",
        "\u{85}\u{86}",
        "\u{1f}x\u{e}",
    ];
    for sample in samples {
        let inner = trim_span(sample.as_bytes(), whole(sample));
        assert_eq!(&sample[inner.start..inner.end], sample.trim());
        let start = sample.len() - sample.trim_start().len();
        assert_eq!(inner.start, if sample.trim().is_empty() { sample.len() } else { start });
    }
}

#[test]
fn white_space_is_counted_in_bytes() {
    assert_eq!(leading_space(" x".as_bytes(), whole(" x")), 1);
    assert_eq!(leading_space("\u{a0}x".as_bytes(), whole("\u{a0}x")), 2);
    assert_eq!(leading_space("\u{2009}x".as_bytes(), whole("\u{2009}x")), 3);
    assert_eq!(leading_space("x ".as_bytes(), whole("x ")), 0);
    assert_eq!(leading_space("".as_bytes(), whole("")), 0);
    assert_eq!(trailing_space("x\n".as_bytes(), whole("x\n")), 1);
    assert_eq!(trailing_space("x\u{85}".as_bytes(), whole("x\u{85}")), 2);
    assert_eq!(trailing_space("x\u{205f}".as_bytes(), whole("x\u{205f}")), 3);
    assert_eq!(trailing_space(" x".as_bytes(), whole(" x")), 0);
    assert_eq!(trailing_space(&[0x80, 0x80], Span { start: 0, end: 2 }), 0);
}

#[test]
fn finds_the_first_separator() {
    let text = "ab,cd,".as_bytes();

    assert_eq!(find_byte(text, 0, 6, b','), 2);
    assert_eq!(find_byte(text, 2, 6, b','), 2);
    assert_eq!(find_byte(text, 3, 6, b','), 5);
    assert_eq!(find_byte(text, 3, 5, b','), 5);
    assert_eq!(find_byte(text, 3, 4, b','), 4);
    assert_eq!(find_byte(text, 0, 6, b';'), 6);
    assert_eq!(find_byte(text, 6, 6, b','), 6);
}

#[test]
fn splits_into_one_part_more_than_there_are_separators() {
    assert_eq!(split_spans(b"", b'\n'), vec![Span { start: 0, end: 0 }]);
    assert_eq!(split_spans(b"ab", b'\n'), vec![Span { start: 0, end: 2 }]);
    assert_eq!(
        split_spans(b"ab\n\ncd\n", b'\n'),
        vec![
            Span { start: 0, end: 2 },
            Span { start: 3, end: 3 },
            Span { start: 4, end: 6 },
            Span { start: 7, end: 7 }
        ]
    );
    let text = "3 4\n.p.\n\n###";
    let parts: Vec<&str> = split_spans(text.as_bytes(), b'\n')
        .iter()
        .map(|s| &text[s.start..s.end])
        .collect();
    let wanted: Vec<&str> = text.split('\n').collect();
    assert_eq!(parts, wanted);
}

#[test]
fn reads_numbers_as_the_standard_library_does() {
    let samples = [
        "0",
        "7",
        "42",
        "+42",
        "007",
        "",
        "+",
        "-1",
        "++1",
        "1+",
        " 1",
        "1 ",
        "12a",
        "18446744073709551615",
        "18446744073709551616",
        "4294967295",
        "4294967296",
        "99999999999999999999999999",
        "+0000000000000000000000000000001",
    ];
    for sample in samples {
        assert_eq!(
            parse_number(sample.as_bytes(), whole(sample)),
            sample.parse::<usize>().ok()
        );
    }
    assert_eq!(parse_number(b"a12b", Span { start: 1, end: 3 }), Some(12));
}

#[test]
fn reads_the_size_from_the_first_two_parts() {
    assert_eq!(read_dimensions(b"3 4", Span { start: 0, end: 3 }), Some((3, 4)));
    assert_eq!(read_dimensions(b"10 200 x", Span { start: 0, end: 8 }), Some((10, 200)));
    assert_eq!(read_dimensions(b"3 4\n..", Span { start: 0, end: 3 }), Some((3, 4)));
    assert_eq!(read_dimensions(b"3", Span { start: 0, end: 1 }), None);
    assert_eq!(read_dimensions(b"3 0", Span { start: 0, end: 3 }), None);
    assert_eq!(read_dimensions(b"", Span { start: 0, end: 0 }), None);
}

#[test]
fn trims_every_line_but_the_first() {
    let text = b" 9 \n .p \n##";
    let lines = split_spans(text, b'\n');

    assert_eq!(
        trim_rows(text, &lines, 2),
        Some(vec![Span { start: 5, end: 7 }, Span { start: 9, end: 11 }])
    );
    assert_eq!(trim_rows(text, &lines, 3), None);
    assert_eq!(trim_rows(b"x", &split_spans(b"x", b'\n'), 3), Some(vec![]));
}

#[test]
fn reads_the_symbols_of_all_rows() {
    let text = b"p.#\n#p.";
    let rows = vec![Span { start: 0, end: 3 }, Span { start: 4, end: 7 }];

    assert_eq!(
        read_rows(text, &rows),
        Some((
            vec![false, false, true, true, false, false],
            vec![Pixel { x: 0, y: 0 }, Pixel { x: 1, y: 1 }]
        ))
    );
    assert_eq!(read_rows(b"p.#\n#px", &rows), None);
    assert_eq!(
        read_rows(b"xp#.py", &vec![Span { start: 1, end: 5 }, Span { start: 5, end: 5 }]),
        Some((
            vec![false, true, false, false],
            vec![Pixel { x: 0, y: 0 }, Pixel { x: 3, y: 0 }]
        ))
    );
    assert_eq!(read_rows(b"", &vec![]), Some((vec![], vec![])));
}
