//! The highlighter for numbers: runs of decimal digits, with or without a
//! decimal part.

use vstd::prelude::*;
use vstd::string::*;
use nu_ansi_term::Style as NuStyle;
use regex::Regex;
use crate::highlighter::pattern::{
    compile, compile_outcome, find_matches, parts, pattern_error, piece_views, regex_matches,
    split_at_matches, Part, PatternError, Piece,
};
use crate::manifold::Highlight;
use crate::style::{nu_style, paint, painted, Style};

verus! {

/// The shape of a number: digits, and after a dot more digits, standing on
/// their own as a word.
pub const NUMBER_PATTERN: &'static str = r"(?x)
            \b       # Start of a word
            \d+      # One or more digits
            (\.      # A dot
            \d+      # and one or more digits after it
            )?       # which may both be left out
            \b       # End of a word
            ";

pub struct NumberHighlighter {
    /// The style of a number.
    pub style: NuStyle,
    /// The compiled pattern.
    pub pattern: Regex,
}

/// The parts one after the other, the matched ones painted in `style` and the
/// others as they are.
pub open spec fn number_parts(parts: Seq<Part>, style: NuStyle) -> Seq<char>
    decreases parts.len(),
{
    if parts.len() == 0 {
        seq![]
    } else {
        let first = if parts[0].matched {
            painted(style, parts[0].text)
        } else {
            parts[0].text
        };
        first + number_parts(parts.drop_first(), style)
    }
}

/// The highlighter with the style for a compiled pattern, or the library's
/// error for the compiler's.
pub open spec fn number_highlighter(compiled: Result<Regex, regex::Error>, style: Style) -> Result<
    NumberHighlighter,
    PatternError,
> {
    match compiled {
        Ok(pattern) => Ok(NumberHighlighter { style: nu_style(style), pattern }),
        Err(error) => Err(pattern_error(error)),
    }
}

impl NumberHighlighter {
    /// A highlighter with the style, for whatever pattern `compiled` holds;
    /// the library's error where it holds none.
    pub fn from_compiled(compiled: Result<Regex, regex::Error>, style: Style) -> (made: Result<
        NumberHighlighter,
        PatternError,
    >)
        ensures
            made == number_highlighter(compiled, style),
    {
        match compiled {
            Ok(pattern) => Ok(NumberHighlighter { style: NuStyle::from(style), pattern }),
            Err(error) => Err(PatternError::from_regex(error)),
        }
    }

    /// A highlighter with the style. It fails where the pattern compiler
    /// refuses `NUMBER_PATTERN`, and only there.
    pub fn new(style: Style) -> (made: Result<NumberHighlighter, PatternError>)
        ensures
            made == number_highlighter(compile_outcome(NUMBER_PATTERN@), style),
    {
        NumberHighlighter::from_compiled(compile(NUMBER_PATTERN), style)
    }

    /// Puts the pieces of a text together again, the matched ones painted.
    pub fn paint_pieces(&self, pieces: &Vec<Piece<'_>>) -> (output: String)
        ensures
            output@ == number_parts(piece_views(pieces@), self.style),
    {
        let mut output = String::new();
        let mut i: usize = 0;
        let ghost all = piece_views(pieces@);
        let ghost whole = number_parts(all, self.style);
        proof {
            assert(all.skip(0) =~= all);
            assert(output@ + whole =~= whole);
        }
        while i < pieces.len()
            invariant
                i <= pieces.len(),
                all == piece_views(pieces@),
                whole == number_parts(all, self.style),
                output@ + number_parts(all.skip(i as int), self.style) == whole,
            decreases pieces.len() - i,
        {
            let ghost before = output@;
            let ghost rest = all.skip(i as int);
            proof {
                assert(rest[0] == pieces@[i as int]@);
                assert(rest.drop_first() =~= all.skip(i + 1));
            }
            match &pieces[i] {
                Piece::Matched(token) => {
                    let painted_token = paint(&self.style, token);
                    output.append(painted_token.as_str());
                },
                Piece::Unmatched(text) => {
                    output.append(text);
                },
            }
            proof {
                let added = output@.skip(before.len() as int);
                assert(output@ =~= before + added);
                assert((before + added) + number_parts(rest.drop_first(), self.style) =~= before
                    + (added + number_parts(rest.drop_first(), self.style)));
            }
            i = i + 1;
        }
        proof {
            assert(all.skip(all.len() as int) =~= Seq::<Part>::empty());
            assert(output@ + Seq::<char>::empty() =~= output@);
        }
        output
    }
}

impl Highlight for NumberHighlighter {
    /// The text with each match of the pattern painted, and every other
    /// character as it is.
    open spec fn highlighted(&self, input: Seq<char>) -> Seq<char> {
        number_parts(parts(input, regex_matches(self.pattern, input), 0), self.style)
    }

    fn apply(&self, input: &str) -> (output: String) {
        let spans = find_matches(&self.pattern, input);
        let pieces = split_at_matches(input, &spans);
        self.paint_pieces(&pieces)
    }
}

/// A text in which the pattern matches nothing is left as it is.
pub proof fn lemma_number_without_match(highlighter: NumberHighlighter, text: Seq<char>)
    requires
        regex_matches(highlighter.pattern, text).len() == 0,
    ensures
        highlighter.highlighted(text) == text,
{
    reveal_with_fuel(number_parts, 2);
    let all = parts(text, regex_matches(highlighter.pattern, text), 0);
    if text.len() > 0 {
        assert(all.drop_first() =~= Seq::<Part>::empty());
        assert(text.subrange(0, text.len() as int) =~= text);
    }
    assert(number_parts(all, highlighter.style) =~= text);
}

} // verus!
