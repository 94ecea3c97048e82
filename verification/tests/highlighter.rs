use manifold::highlighter::number::NumberHighlighter;
use manifold::highlighter::pattern::{split_at_matches, PatternError, Piece};
use manifold::highlighter::uuid::UuidHighlighter;
use manifold::style::{blue, cyan, green, red};
use manifold::{Color, Highlight, Style};

fn convert_escape_codes(text: &str) -> String {
    text.replace("\x1b[34m", "[blue]")
        .replace("\x1b[32m", "[green]")
        .replace("\x1b[31m", "[red]")
        .replace("\x1b[36m", "[cyan]")
        .replace("\x1b[0m", "[reset]")
}

fn pieces_of(text: &str, spans: Vec<(usize, usize)>) -> Vec<(bool, String)> {
    let mut listed = Vec::new();
    for piece in split_at_matches(text, &spans) {
        match piece {
            Piece::Unmatched(part) => listed.push((false, part.to_string())),
            Piece::Matched(part) => listed.push((true, part.to_string())),
        }
    }
    listed
}

#[test]
fn test_uuid_highlighter() {
    let highlighter = UuidHighlighter::new(blue(), green(), red()).expect("Invalid UUID regex pattern");

    let cases = vec![
        (
            "The UUID is 123e4567-e89b-12d3-a456-426614174000.",
            "The UUID is [blue]1[reset][blue]2[reset][blue]3[reset][green]e[reset][blue]4[reset][blue]5[reset][blue]6[reset][blue]7[reset][red]-[reset][green]e[reset][blue]8[reset][blue]9[reset][green]b[reset][red]-[reset][blue]1[reset][blue]2[reset][green]d[reset][blue]3[reset][red]-[reset][green]a[reset][blue]4[reset][blue]5[reset][blue]6[reset][red]-[reset][blue]4[reset][blue]2[reset][blue]6[reset][blue]6[reset][blue]1[reset][blue]4[reset][blue]1[reset][blue]7[reset][blue]4[reset][blue]0[reset][blue]0[reset][blue]0[reset]."
        ),
        (
            "Another UUID is f47ac10b-58cc-4372-a567-0e02b2c3d479.",
            "Another UUID is [green]f[reset][blue]4[reset][blue]7[reset][green]a[reset][green]c[reset][blue]1[reset][blue]0[reset][green]b[reset][red]-[reset][blue]5[reset][blue]8[reset][green]c[reset][green]c[reset][red]-[reset][blue]4[reset][blue]3[reset][blue]7[reset][blue]2[reset][red]-[reset][green]a[reset][blue]5[reset][blue]6[reset][blue]7[reset][red]-[reset][blue]0[reset][green]e[reset][blue]0[reset][blue]2[reset][green]b[reset][blue]2[reset][green]c[reset][blue]3[reset][green]d[reset][blue]4[reset][blue]7[reset][blue]9[reset]."
        ),
        (
            "No UUID here!",
            "No UUID here!"
        ),
    ];

    for (input, expected) in cases {
        let actual = highlighter.apply(input);
        assert_eq!(expected, convert_escape_codes(&actual));
    }
}

#[test]
fn every_character_of_a_uuid_gets_the_style_of_its_class() {
    let highlighter = UuidHighlighter::new(blue(), green(), red()).unwrap();
    let input = "f47ac10b-58cc-4372-a567-0e02b2c3d479";
    let mut expected = String::new();
    for c in input.chars() {
        let code = if c.is_ascii_digit() {
            "\x1b[34m"
        } else if c == '-' {
            "\x1b[31m"
        } else {
            "\x1b[32m"
        };
        expected.push_str(code);
        expected.push(c);
        expected.push_str("\x1b[0m");
    }
    assert_eq!(highlighter.apply(input), expected);
}

#[test]
fn upper_case_letters_of_a_uuid_are_letters() {
    let highlighter = UuidHighlighter::new(blue(), green(), red()).unwrap();
    assert_eq!(
        convert_escape_codes(&highlighter.paint_token("A1-f")),
        "[green]A[reset][blue]1[reset][red]-[reset][green]f[reset]"
    );
}

#[test]
fn characters_of_no_class_are_not_painted() {
    let highlighter = UuidHighlighter::new(blue(), green(), red()).unwrap();
    assert_eq!(highlighter.paint_char('g'), "g");
    assert_eq!(highlighter.paint_char('G'), "G");
    assert_eq!(highlighter.paint_char(' '), " ");
    assert_eq!(highlighter.paint_char('\u{e9}'), "\u{e9}");
    assert_eq!(highlighter.paint_char('/'), "/");
    assert_eq!(highlighter.paint_char(':'), ":");
    assert_eq!(highlighter.paint_char('0'), "\x1b[34m0\x1b[0m");
    assert_eq!(highlighter.paint_char('9'), "\x1b[34m9\x1b[0m");
    assert_eq!(highlighter.paint_char('a'), "\x1b[32ma\x1b[0m");
    assert_eq!(highlighter.paint_char('F'), "\x1b[32mF\x1b[0m");
    assert_eq!(highlighter.paint_char('-'), "\x1b[31m-\x1b[0m");
    assert_eq!(highlighter.paint_token("x\u{e9}z"), "x\u{e9}z");
    assert_eq!(highlighter.paint_token(""), "");
}

#[test]
fn a_style_with_nothing_set_paints_nothing() {
    let nothing = Style { fg: None, bg: None, bold: false, faint: false, italic: false, underline: false };
    let highlighter = UuidHighlighter::new(nothing, nothing, red()).unwrap();
    assert_eq!(highlighter.paint_token("a1-"), "a1\x1b[31m-\x1b[0m");
}

#[test]
fn text_of_the_wrong_shape_is_no_uuid() {
    let highlighter = UuidHighlighter::new(blue(), green(), red()).unwrap();
    for input in [
        "",
        "123e4567-e89b-12d3-a456",
        "123e4567e89b12d3a456426614174000",
        "123e4567-e89b-12d3-a456-42661417400",
        "g23e4567-e89b-12d3-a456-426614174000",
    ] {
        assert_eq!(highlighter.apply(input), input);
    }
}

#[test]
fn number_highlighter_paints_whole_numbers() {
    let highlighter = NumberHighlighter::new(cyan()).unwrap();
    assert_eq!(
        convert_escape_codes(&highlighter.apply("took 12 ms, 3.5 s; v2 x86 1a")),
        "took [cyan]12[reset] ms, [cyan]3.5[reset] s; v2 x86 1a"
    );
    assert_eq!(highlighter.apply("No match here!"), "No match here!");
    assert_eq!(highlighter.apply(""), "");
}

#[test]
fn number_highlighter_works_between_wide_characters() {
    let highlighter = NumberHighlighter::new(cyan()).unwrap();
    assert_eq!(
        highlighter.apply("\u{20ac} 15 \u{2713} 7"),
        "\u{20ac} \x1b[36m15\x1b[0m \u{2713} \x1b[36m7\x1b[0m"
    );
}

#[test]
fn styles_become_escape_sequences() {
    let style = Style {
        fg: Some(Color::Yellow),
        bg: Some(Color::Blue),
        bold: true,
        faint: true,
        italic: true,
        underline: true,
    };
    let highlighter = NumberHighlighter::new(style).unwrap();
    assert_eq!(highlighter.apply("1"), "\x1b[1;2;3;4;44;33m1\x1b[0m");
}

#[test]
fn an_error_of_the_compiler_becomes_an_error_of_the_library() {
    let refused = regex::Regex::new("(").unwrap_err();
    let message = match &refused {
        regex::Error::Syntax(message) => message.clone(),
        _ => panic!("a syntax error was expected"),
    };
    assert_eq!(PatternError::from_regex(refused), PatternError::Syntax(message.clone()));

    let too_big = regex::RegexBuilder::new(r"\w{100}").size_limit(10).build().unwrap_err();
    assert_eq!(PatternError::from_regex(too_big), PatternError::TooBig(10));

    match NumberHighlighter::from_compiled(regex::Regex::new("("), cyan()) {
        Err(reason) => assert_eq!(reason, PatternError::Syntax(message.clone())),
        Ok(_) => panic!("an error was expected"),
    }
    match UuidHighlighter::from_compiled(regex::Regex::new("("), blue(), green(), red()) {
        Err(reason) => assert_eq!(reason, PatternError::Syntax(message)),
        Ok(_) => panic!("an error was expected"),
    }
}

#[test]
fn a_highlighter_works_with_the_pattern_it_is_given() {
    let highlighter =
        NumberHighlighter::from_compiled(regex::Regex::new("[xy]+"), cyan()).ok().unwrap();
    assert_eq!(convert_escape_codes(&highlighter.apply("axyb1")), "a[cyan]xy[reset]b1");
}

#[test]
fn text_is_cut_at_the_spans() {
    assert_eq!(
        pieces_of("hello world", vec![(0, 5), (6, 8)]),
        vec![
            (true, "hello".to_string()),
            (false, " ".to_string()),
            (true, "wo".to_string()),
            (false, "rld".to_string()),
        ]
    );
    assert_eq!(pieces_of("hello", vec![]), vec![(false, "hello".to_string())]);
    assert_eq!(pieces_of("", vec![]), vec![]);
    assert_eq!(pieces_of("abc", vec![(0, 3)]), vec![(true, "abc".to_string())]);
    assert_eq!(
        pieces_of("abc", vec![(1, 1)]),
        vec![(false, "a".to_string()), (true, "".to_string()), (false, "bc".to_string())]
    );
}

#[test]
fn spans_that_do_not_fit_are_passed_over() {
    // behind the end, back to front, before the last one, inside a character
    assert_eq!(pieces_of("abc", vec![(1, 9)]), vec![(false, "abc".to_string())]);
    assert_eq!(pieces_of("abc", vec![(2, 1)]), vec![(false, "abc".to_string())]);
    assert_eq!(
        pieces_of("abcdef", vec![(2, 4), (1, 5), (4, 5)]),
        vec![
            (false, "ab".to_string()),
            (true, "cd".to_string()),
            (true, "e".to_string()),
            (false, "f".to_string()),
        ]
    );
    assert_eq!(pieces_of("a\u{e9}b", vec![(1, 2)]), vec![(false, "a\u{e9}b".to_string())]);
    assert_eq!(
        pieces_of("a\u{e9}b", vec![(1, 3)]),
        vec![(false, "a".to_string()), (true, "\u{e9}".to_string()), (false, "b".to_string())]
    );
}
