use manifold::search::find_bytes;
use manifold::split_and_apply::{
    allocate_string, apply_only_to_unhighlighted, capacity_for, split_into_chunks, Chunk,
    ESCAPE_CODE, FOUR_KB, RESET_CODE,
};
use manifold::Highlight;
use std::sync::Arc;

/// Turns plain text into capitals and puts it in brackets.
struct Shout;

impl Highlight for Shout {
    fn apply(&self, input: &str) -> String {
        format!("<{}>", input.to_uppercase())
    }
}

fn kinds_and_texts(input: &str) -> Vec<(bool, String)> {
    let mut listed = Vec::new();
    for chunk in split_into_chunks(input) {
        match chunk {
            Chunk::NotHighlighted(text) => listed.push((false, text.to_string())),
            Chunk::AlreadyHighlighted(text) => listed.push((true, text.to_string())),
        }
    }
    listed
}

fn joined(input: &str) -> String {
    let mut text = String::new();
    for (_, part) in kinds_and_texts(input) {
        text.push_str(&part);
    }
    text
}

#[test]
fn test_split_into_chunks() {
    let input = "Here is a date \x1b[31m2023-06-24\x1b[0m, and here is a number 12345.";
    let chunks = split_into_chunks(input);

    assert_eq!(chunks.len(), 3);
    match &chunks[0] {
        Chunk::NotHighlighted(text) => assert_eq!(*text, "Here is a date "),
        Chunk::AlreadyHighlighted(_) => panic!("Unexpected chunk type."),
    }
    match &chunks[1] {
        Chunk::AlreadyHighlighted(text) => assert_eq!(*text, "\x1b[31m2023-06-24\x1b[0m"),
        Chunk::NotHighlighted(_) => panic!("Unexpected chunk type."),
    }
    match &chunks[2] {
        Chunk::NotHighlighted(text) => assert_eq!(*text, ", and here is a number 12345."),
        Chunk::AlreadyHighlighted(_) => panic!("Unexpected chunk type."),
    }
}

#[test]
fn markers_are_the_terminal_sequences() {
    assert_eq!(ESCAPE_CODE, "\u{1b}[");
    assert_eq!(RESET_CODE, "\u{1b}[0m");
    assert_eq!(FOUR_KB, 4096);
}

#[test]
fn empty_input_has_no_chunks() {
    assert_eq!(split_into_chunks("").len(), 0);
}

#[test]
fn plain_text_is_one_plain_chunk() {
    assert_eq!(kinds_and_texts("No match here!"), vec![(false, "No match here!".to_string())]);
}

#[test]
fn wrapped_text_is_one_styled_chunk() {
    let input = "\x1b[31mred\x1b[0m";
    assert_eq!(kinds_and_texts(input), vec![(true, input.to_string())]);
}

#[test]
fn unterminated_markup_is_styled_to_the_end() {
    let input = "before \x1b[31mnever closed 123";
    assert_eq!(
        kinds_and_texts(input),
        vec![(false, "before ".to_string()), (true, "\x1b[31mnever closed 123".to_string())]
    );
}

#[test]
fn lone_escape_marker_at_the_end_is_styled() {
    assert_eq!(
        kinds_and_texts("abc\x1b["),
        vec![(false, "abc".to_string()), (true, "\x1b[".to_string())]
    );
}

#[test]
fn adjacent_markup_leaves_no_empty_chunk() {
    let input = "\x1b[31ma\x1b[0m\x1b[32mb\x1b[0m";
    assert_eq!(
        kinds_and_texts(input),
        vec![(true, "\x1b[31ma\x1b[0m".to_string()), (true, "\x1b[32mb\x1b[0m".to_string())]
    );
}

#[test]
fn reset_marker_alone_is_styled() {
    assert_eq!(
        kinds_and_texts("a\x1b[0mb"),
        vec![(false, "a".to_string()), (true, "\x1b[0m".to_string()), (false, "b".to_string())]
    );
}

#[test]
fn escape_character_without_bracket_is_plain() {
    assert_eq!(kinds_and_texts("a\x1bXb"), vec![(false, "a\x1bXb".to_string())]);
}

#[test]
fn markup_is_found_among_wide_characters() {
    let input = "h\u{e9}llo \u{2713} \x1b[1mw\u{f6}rld \u{1f600}\x1b[0m \u{4e16}\u{754c}";
    assert_eq!(
        kinds_and_texts(input),
        vec![
            (false, "h\u{e9}llo \u{2713} ".to_string()),
            (true, "\x1b[1mw\u{f6}rld \u{1f600}\x1b[0m".to_string()),
            (false, " \u{4e16}\u{754c}".to_string()),
        ]
    );
}

#[test]
fn chunks_joined_give_the_input() {
    let inputs = [
        "",
        "plain",
        "\x1b[",
        "\x1b[0m",
        "a\x1b[31mb\x1b[0mc\x1b[32md",
        "\x1b[31m\x1b[0m\x1b[0m\x1b[",
        "h\u{e9}\x1b[1m\u{1f600}\x1b[0m\u{4e16}",
    ];
    for input in inputs {
        assert_eq!(joined(input), input);
        for (_, part) in kinds_and_texts(input) {
            assert!(!part.is_empty());
        }
    }
}

#[test]
fn capacity_is_three_times_the_length_up_to_the_limit() {
    assert_eq!(capacity_for(0), 0);
    assert_eq!(capacity_for(10), 30);
    assert_eq!(capacity_for(1365), 4095);
    assert_eq!(capacity_for(1366), 4096);
    assert_eq!(capacity_for(5000), 4096);
    assert_eq!(capacity_for(usize::MAX), 4096);
}

#[test]
fn allocated_string_is_empty() {
    assert_eq!(allocate_string("some input"), "");
    assert!(allocate_string("some input").capacity() >= 30);
}

#[test]
fn only_plain_parts_reach_the_highlighter() {
    let input = "one \x1b[31mtwo\x1b[0m three";
    assert_eq!(apply_only_to_unhighlighted(input, &Shout), "<ONE >\x1b[31mtwo\x1b[0m< THREE>");
}

#[test]
fn highlighter_is_not_called_for_empty_input() {
    assert_eq!(apply_only_to_unhighlighted("", &Shout), "");
}

#[test]
fn highlighter_is_not_called_for_styled_input() {
    let input = "\x1b[31mred\x1b[0m";
    assert_eq!(apply_only_to_unhighlighted(input, &Shout), input);
}

#[test]
fn unterminated_markup_passes_the_highlighter() {
    assert_eq!(apply_only_to_unhighlighted("abc \x1b[1mdef", &Shout), "<ABC >\x1b[1mdef");
}

#[test]
fn a_shared_highlighter_is_a_highlighter() {
    let shared: Arc<dyn Highlight> = Arc::new(Shout);
    assert_eq!(apply_only_to_unhighlighted("a \x1b[1mb\x1b[0m", &shared), "<A >\x1b[1mb\x1b[0m");
    assert_eq!(shared.apply("abc"), "<ABC>");
}

#[test]
fn find_bytes_gives_the_first_place() {
    assert_eq!(find_bytes(b"abcabc", b"bc", 0), Some(1));
    assert_eq!(find_bytes(b"abcabc", b"bc", 1), Some(1));
    assert_eq!(find_bytes(b"abcabc", b"bc", 2), Some(4));
    assert_eq!(find_bytes(b"abcabc", b"bc", 5), None);
    assert_eq!(find_bytes(b"abcabc", b"abcabc", 0), Some(0));
    assert_eq!(find_bytes(b"abc", b"abcd", 0), None);
    assert_eq!(find_bytes(b"abc", b"c", 7), None);
    assert_eq!(find_bytes(b"", b"a", 0), None);
}
