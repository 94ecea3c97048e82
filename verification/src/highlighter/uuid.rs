//! The highlighter for UUIDs: five groups of hexadecimal digits, joined by
//! hyphens.

use vstd::prelude::*;
use vstd::string::*;
use nu_ansi_term::Style as NuStyle;
use regex::Regex;
use crate::highlighter::pattern::{
    compile, compile_outcome, find_matches, parts, pattern_error, piece_views, regex_matches,
    split_at_matches, Part, PatternError, Piece,
};
use crate::manifold::Highlight;
use crate::strings::char_to_string;
use crate::style::{nu_style, paint, painted, Style};

verus! {

/// The shape of a UUID: groups of 8, 4, 4, 4 and 12 hexadecimal digits.
pub const UUID_PATTERN: &'static str = r"(?x)
            \b[0-9a-fA-F]{8}\b    # Match first segment of UUID
            -                     # Match separator
            \b[0-9a-fA-F]{4}\b    # Match second segment of UUID
            -                     # Match separator
            \b[0-9a-fA-F]{4}\b    # Match third segment of UUID
            -                     # Match separator
            \b[0-9a-fA-F]{4}\b    # Match fourth segment of UUID
            -                     # Match separator
            \b[0-9a-fA-F]{12}\b   # Match last segment of UUID
        ";

pub struct UuidHighlighter {
    /// The style of decimal digits.
    pub number: NuStyle,
    /// The style of the letters among the hexadecimal digits.
    pub letter: NuStyle,
    /// The style of the hyphens.
    pub dash: NuStyle,
    /// The compiled pattern.
    pub pattern: Regex,
}

/// A decimal digit.
pub open spec fn is_digit(c: char) -> bool {
    '0' <= c <= '9'
}

/// A hexadecimal digit that is a letter, in either case.
pub open spec fn is_hex_letter(c: char) -> bool {
    ('a' <= c <= 'f') || ('A' <= c <= 'F')
}

/// One character of a UUID, painted in the style of its class. Any other
/// character stays as it is.
pub open spec fn uuid_char(c: char, number: NuStyle, letter: NuStyle, dash: NuStyle) -> Seq<char> {
    if is_digit(c) {
        painted(number, seq![c])
    } else if is_hex_letter(c) {
        painted(letter, seq![c])
    } else if c == '-' {
        painted(dash, seq![c])
    } else {
        seq![c]
    }
}

/// A matched token with each of its characters painted on its own.
pub open spec fn uuid_token(
    token: Seq<char>,
    number: NuStyle,
    letter: NuStyle,
    dash: NuStyle,
) -> Seq<char>
    decreases token.len(),
{
    if token.len() == 0 {
        seq![]
    } else {
        uuid_char(token[0], number, letter, dash) + uuid_token(
            token.drop_first(),
            number,
            letter,
            dash,
        )
    }
}

/// The parts one after the other, the matched ones as UUID tokens and the
/// others as they are.
pub open spec fn uuid_parts(
    parts: Seq<Part>,
    number: NuStyle,
    letter: NuStyle,
    dash: NuStyle,
) -> Seq<char>
    decreases parts.len(),
{
    if parts.len() == 0 {
        seq![]
    } else {
        let first = if parts[0].matched {
            uuid_token(parts[0].text, number, letter, dash)
        } else {
            parts[0].text
        };
        first + uuid_parts(parts.drop_first(), number, letter, dash)
    }
}

/// The highlighter with the three styles for a compiled pattern, or the
/// library's error for the compiler's.
pub open spec fn uuid_highlighter(
    compiled: Result<Regex, regex::Error>,
    number: Style,
    letter: Style,
    dash: Style,
) -> Result<UuidHighlighter, PatternError> {
    match compiled {
        Ok(pattern) => Ok(
            UuidHighlighter {
                number: nu_style(number),
                letter: nu_style(letter),
                dash: nu_style(dash),
                pattern,
            },
        ),
        Err(error) => Err(pattern_error(error)),
    }
}

impl UuidHighlighter {
    /// A highlighter with the three styles, for whatever pattern `compiled`
    /// holds; the library's error where it holds none.
    pub fn from_compiled(
        compiled: Result<Regex, regex::Error>,
        number: Style,
        letter: Style,
        dash: Style,
    ) -> (made: Result<UuidHighlighter, PatternError>)
        ensures
            made == uuid_highlighter(compiled, number, letter, dash),
    {
        match compiled {
            Ok(pattern) => Ok(
                UuidHighlighter {
                    number: NuStyle::from(number),
                    letter: NuStyle::from(letter),
                    dash: NuStyle::from(dash),
                    pattern,
                },
            ),
            Err(error) => Err(PatternError::from_regex(error)),
        }
    }

    /// A highlighter with the three styles. It fails where the pattern
    /// compiler refuses `UUID_PATTERN`, and only there.
    pub fn new(number: Style, letter: Style, dash: Style) -> (made: Result<
        UuidHighlighter,
        PatternError,
    >)
        ensures
            made == uuid_highlighter(compile_outcome(UUID_PATTERN@), number, letter, dash),
    {
        UuidHighlighter::from_compiled(compile(UUID_PATTERN), number, letter, dash)
    }

    /// Paints one character in the style of its class.
    pub fn paint_char(&self, c: char) -> (output: String)
        ensures
            output@ == uuid_char(c, self.number, self.letter, self.dash),
    {
        let text = char_to_string(c);
        if c >= '0' && c <= '9' {
            paint(&self.number, text.as_str())
        } else if (c >= 'a' && c <= 'f') || (c >= 'A' && c <= 'F') {
            paint(&self.letter, text.as_str())
        } else if c == '-' {
            paint(&self.dash, text.as_str())
        } else {
            text
        }
    }

    /// Paints each character of a matched token on its own.
    pub fn paint_token(&self, token: &str) -> (output: String)
        ensures
            output@ == uuid_token(token@, self.number, self.letter, self.dash),
    {
        let mut output = String::new();
        let chars = token.chars();
        let ghost whole = uuid_token(token@, self.number, self.letter, self.dash);
        proof {
            assert(token@.skip(0) =~= token@);
            assert(output@ + whole =~= whole);
        }
        for c in it: chars
            invariant
                it.seq() == token@,
                whole == uuid_token(token@, self.number, self.letter, self.dash),
                output@ + uuid_token(
                    token@.skip(it.index()),
                    self.number,
                    self.letter,
                    self.dash,
                ) == whole,
        {
            let ghost before = output@;
            let ghost rest = token@.skip(it.index());
            let piece = self.paint_char(c);
            output.append(piece.as_str());
            proof {
                assert(rest[0] == c);
                assert(rest.drop_first() =~= token@.skip(it.index() + 1));
                assert((before + piece@) + uuid_token(
                    rest.drop_first(),
                    self.number,
                    self.letter,
                    self.dash,
                ) =~= before + (piece@ + uuid_token(
                    rest.drop_first(),
                    self.number,
                    self.letter,
                    self.dash,
                )));
            }
        }
        proof {
            assert(token@.skip(token@.len() as int) =~= Seq::<char>::empty());
            assert(output@ + Seq::<char>::empty() =~= output@);
        }
        output
    }

    /// Puts the pieces of a text together again, the matched ones painted.
    pub fn paint_pieces(&self, pieces: &Vec<Piece<'_>>) -> (output: String)
        ensures
            output@ == uuid_parts(
                piece_views(pieces@),
                self.number,
                self.letter,
                self.dash,
            ),
    {
        let mut output = String::new();
        let mut i: usize = 0;
        let ghost all = piece_views(pieces@);
        let ghost whole = uuid_parts(all, self.number, self.letter, self.dash);
        proof {
            assert(all.skip(0) =~= all);
            assert(output@ + whole =~= whole);
        }
        while i < pieces.len()
            invariant
                i <= pieces.len(),
                all == piece_views(pieces@),
                whole == uuid_parts(all, self.number, self.letter, self.dash),
                output@ + uuid_parts(all.skip(i as int), self.number, self.letter, self.dash)
                    == whole,
            decreases pieces.len() - i,
        {
            let ghost before = output@;
            let ghost rest = all.skip(i as int);
            proof {
                assert(rest[0] == pieces@[i as int]@);
                assert(rest.drop_first() =~= all.skip(i + 1));
            }
            match &pieces[i] {
                Piece::Matched(token) => {
                    let painted_token = self.paint_token(token);
                    output.append(painted_token.as_str());
                },
                Piece::Unmatched(text) => {
                    output.append(text);
                },
            }
            proof {
                let added = output@.skip(before.len() as int);
                assert(output@ =~= before + added);
                assert((before + added) + uuid_parts(
                    rest.drop_first(),
                    self.number,
                    self.letter,
                    self.dash,
                ) =~= before + (added + uuid_parts(
                    rest.drop_first(),
                    self.number,
                    self.letter,
                    self.dash,
                )));
            }
            i = i + 1;
        }
        proof {
            assert(all.skip(all.len() as int) =~= Seq::<Part>::empty());
            assert(output@ + Seq::<char>::empty() =~= output@);
        }
        output
    }
}

impl Highlight for UuidHighlighter {
    /// The text with each character of each match of the pattern painted in
    /// the style of its class, and every other character as it is.
    open spec fn highlighted(&self, input: Seq<char>) -> Seq<char> {
        uuid_parts(
            parts(input, regex_matches(self.pattern, input), 0),
            self.number,
            self.letter,
            self.dash,
        )
    }

    fn apply(&self, input: &str) -> (output: String) {
        let spans = find_matches(&self.pattern, input);
        let pieces = split_at_matches(input, &spans);
        self.paint_pieces(&pieces)
    }
}

/// A text in which the pattern matches nothing is left as it is.
pub proof fn lemma_uuid_without_match(highlighter: UuidHighlighter, text: Seq<char>)
    requires
        regex_matches(highlighter.pattern, text).len() == 0,
    ensures
        highlighter.highlighted(text) == text,
{
    reveal_with_fuel(uuid_parts, 2);
    let all = parts(text, regex_matches(highlighter.pattern, text), 0);
    if text.len() > 0 {
        assert(all.drop_first() =~= Seq::<Part>::empty());
        assert(text.subrange(0, text.len() as int) =~= text);
    }
    assert(uuid_parts(all, highlighter.number, highlighter.letter, highlighter.dash) =~= text);
}

} // verus!
