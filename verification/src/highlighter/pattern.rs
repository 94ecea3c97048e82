//! Compiled patterns, and the cutting of a text at the places where a pattern
//! matched.

use vstd::prelude::*;
use vstd::string::*;
use vstd::utf8::*;
use regex::Regex;
use crate::offsets::{
    byte_offset, char_index, lemma_boundary_is_offset, lemma_byte_offset_monotonic, substring,
};

verus! {

/// `Regex` of the `regex` crate: a compiled pattern. Nothing of its inside
/// is known here.
#[verifier::external_type_specification]
#[verifier::external_body]
pub struct ExRegex(Regex);

/// `Error` of the `regex` crate, with its variants as the crate declares
/// them.
#[verifier::external_type_specification]
pub struct ExRegexError(regex::Error);

/// What `Regex::new` returns for a pattern: the compiled pattern, or why the
/// pattern cannot be compiled.
pub uninterp spec fn compile_outcome(pattern: Seq<char>) -> Result<Regex, regex::Error>;

/// The matches that `Regex::find_iter` yields for a haystack, in the order in
/// which it yields them: for each match the byte offsets of its start and of
/// its end.
pub uninterp spec fn regex_matches(re: Regex, haystack: Seq<char>) -> Seq<(usize, usize)>;

/// Calls `Regex::new`. The outcome depends on the pattern alone.
#[verifier::external_body]
pub(crate) fn compile(pattern: &str) -> (outcome: Result<Regex, regex::Error>)
    ensures
        outcome == compile_outcome(pattern@),
{
    Regex::new(pattern)
}

/// A span of byte offsets lies within the encoded text, and both of its ends
/// are character boundaries.
pub open spec fn span_in_text(text: Seq<char>, span: (usize, usize)) -> bool {
    &&& span.0 <= span.1 <= encode_utf8(text).len()
    &&& is_char_boundary(encode_utf8(text), span.0 as int)
    &&& is_char_boundary(encode_utf8(text), span.1 as int)
}

/// The spans lie within the text, begin and end at character boundaries,
/// come in the order of the text and do not overlap.
pub open spec fn spans_in_order(text: Seq<char>, spans: Seq<(usize, usize)>) -> bool {
    &&& forall|i: int| 0 <= i < spans.len() ==> span_in_text(text, #[trigger] spans[i])
    &&& forall|i: int, j: int|
        0 <= i < j < spans.len() ==> (#[trigger] spans[i]).1 <= (#[trigger] spans[j]).0
}

/// Calls `Regex::find_iter` and collects the start and the end of each match.
/// The matches depend on the pattern and the haystack alone. As the crate
/// documents, a match starts no later than it ends, both ends are byte
/// offsets into the haystack at character boundaries, and the matches follow
/// one another without overlap.
#[verifier::external_body]
pub(crate) fn find_matches(re: &Regex, haystack: &str) -> (spans: Vec<(usize, usize)>)
    ensures
        spans@ == regex_matches(*re, haystack@),
        spans_in_order(haystack@, spans@),
{
    re.find_iter(haystack).map(|found| (found.start(), found.end())).collect()
}

/// Why a pattern could not be compiled.
#[derive(Debug, PartialEq, Eq)]
pub enum PatternError {
    /// The pattern is not well formed; the message says where.
    Syntax(String),
    /// The compiled pattern would be larger than the limit given.
    TooBig(usize),
    /// The pattern was refused for another reason.
    Other,
}

/// The library's error for an error of the pattern compiler.
pub open spec fn pattern_error(error: regex::Error) -> PatternError {
    match error {
        regex::Error::Syntax(message) => PatternError::Syntax(message),
        regex::Error::CompiledTooBig(limit) => PatternError::TooBig(limit),
        _ => PatternError::Other,
    }
}

impl PatternError {
    /// The library's error for an error of the pattern compiler.
    pub fn from_regex(error: regex::Error) -> (reason: PatternError)
        ensures
            reason == pattern_error(error),
    {
        match error {
            regex::Error::Syntax(message) => PatternError::Syntax(message),
            regex::Error::CompiledTooBig(limit) => PatternError::TooBig(limit),
            _ => PatternError::Other,
        }
    }
}

/// A stretch of a text, and whether the pattern matched it.
pub struct Part {
    pub matched: bool,
    pub text: Seq<char>,
}

/// A stretch of the input, borrowed from it.
pub enum Piece<'a> {
    Unmatched(&'a str),
    Matched(&'a str),
}

impl<'a> View for Piece<'a> {
    type V = Part;

    open spec fn view(&self) -> Part {
        match self {
            Piece::Unmatched(text) => Part { matched: false, text: text@ },
            Piece::Matched(text) => Part { matched: true, text: text@ },
        }
    }
}

/// The parts that a sequence of pieces stands for.
pub open spec fn piece_views(pieces: Seq<Piece<'_>>) -> Seq<Part> {
    pieces.map_values(|piece: Piece<'_>| piece@)
}

/// A span of byte offsets can be cut out of what is left of `text` from
/// character `at` on: it lies within the text, and does not begin before `at`.
pub open spec fn span_fits(text: Seq<char>, at: int, span: (usize, usize)) -> bool {
    &&& byte_offset(text, at) <= span.0
    &&& span_in_text(text, span)
}

/// The characters from `from` up to `to` as one unmatched part; nothing if
/// there are none.
pub open spec fn unmatched_part(text: Seq<char>, from: int, to: int) -> Seq<Part> {
    if from < to {
        seq![Part { matched: false, text: text.subrange(from, to) }]
    } else {
        seq![]
    }
}

/// The parts of `text` from character `at` on: each span that fits is a
/// matched part, what lies between them is unmatched, and a span that does
/// not fit is passed over.
pub open spec fn parts(text: Seq<char>, spans: Seq<(usize, usize)>, at: int) -> Seq<Part>
    decreases spans.len(),
{
    if spans.len() == 0 {
        unmatched_part(text, at, text.len() as int)
    } else if span_fits(text, at, spans[0]) {
        let start = char_index(text, spans[0].0 as int);
        let end = char_index(text, spans[0].1 as int);
        unmatched_part(text, at, start) + seq![
            Part { matched: true, text: text.subrange(start, end) },
        ] + parts(text, spans.drop_first(), end)
    } else {
        parts(text, spans.drop_first(), at)
    }
}

/// Cuts `text` at the given spans of byte offsets.
pub fn split_at_matches<'a>(text: &'a str, spans: &Vec<(usize, usize)>) -> (pieces: Vec<Piece<'a>>)
    ensures
        piece_views(pieces@) == parts(text@, spans@, 0),
        pieces@.len() == parts(text@, spans@, 0).len(),
        forall|i: int|
            0 <= i < pieces@.len() ==> (#[trigger] pieces@[i])@ == parts(text@, spans@, 0)[i],
{
    let len = text.as_bytes().len();
    let mut pieces: Vec<Piece<'a>> = Vec::new();
    let mut last: usize = 0;
    let mut i: usize = 0;
    let ghost mut at: int = 0;
    proof {
        lemma_byte_offset_monotonic(text@, 0, 0);
        assert(spans@.skip(0) =~= spans@);
        assert(piece_views(pieces@) + parts(text@, spans@.skip(0), at) =~= parts(text@, spans@, 0));
    }
    while i < spans.len()
        invariant
            i <= spans.len(),
            len == encode_utf8(text@).len(),
            0 <= at <= text@.len(),
            last == byte_offset(text@, at),
            piece_views(pieces@) + parts(text@, spans@.skip(i as int), at) == parts(text@, spans@, 0),
        decreases spans.len() - i,
    {
        let (start, end) = spans[i];
        let ghost before = piece_views(pieces@);
        let ghost rest = spans@.skip(i as int);
        proof {
            assert(rest[0] == spans@[i as int]);
            assert(rest.drop_first() =~= spans@.skip(i + 1));
        }
        if last <= start && start <= end && end <= len && text.is_char_boundary(start)
            && text.is_char_boundary(end) {
            let ghost from = char_index(text@, start as int);
            let ghost to = char_index(text@, end as int);
            proof {
                lemma_boundary_is_offset(text@, start as int);
                lemma_boundary_is_offset(text@, end as int);
                if from < at {
                    lemma_byte_offset_monotonic(text@, from, at);
                }
                if to < from {
                    lemma_byte_offset_monotonic(text@, to, from);
                }
                if at < from {
                    lemma_byte_offset_monotonic(text@, at, from);
                }
            }
            if last != start {
                let gap = substring(text, last, start, Ghost(at), Ghost(from));
                pieces.push(Piece::Unmatched(gap));
            }
            let token = substring(text, start, end, Ghost(from), Ghost(to));
            pieces.push(Piece::Matched(token));
            proof {
                let matched = Part { matched: true, text: text@.subrange(from, to) };
                let added = unmatched_part(text@, at, from) + seq![matched];
                assert(piece_views(pieces@) =~= before + added);
                assert((before + added) + parts(text@, rest.drop_first(), to) =~= before + (added
                    + parts(text@, rest.drop_first(), to)));
                at = to;
            }
            last = end;
        }
        i = i + 1;
    }
    proof {
        lemma_byte_offset_monotonic(text@, at, text@.len() as int);
    }
    if last != len {
        let ghost before = piece_views(pieces@);
        let tail = substring(text, last, len, Ghost(at), Ghost(text@.len() as int));
        pieces.push(Piece::Unmatched(tail));
        proof {
            assert(piece_views(pieces@) =~= before + unmatched_part(text@, at, text@.len() as int));
        }
    } else {
        proof {
            assert(piece_views(pieces@) + Seq::<Part>::empty() =~= piece_views(pieces@));
        }
    }
    pieces
}

/// The texts of the parts, one after the other.
pub open spec fn join(parts: Seq<Part>) -> Seq<char>
    decreases parts.len(),
{
    if parts.len() == 0 {
        seq![]
    } else {
        parts[0].text + join(parts.drop_first())
    }
}

/// Joining distributes over concatenation.
pub proof fn lemma_join_append(a: Seq<Part>, b: Seq<Part>)
    ensures
        join(a + b) == join(a) + join(b),
    decreases a.len(),
{
    if a.len() == 0 {
        assert(a + b =~= b);
        assert(join(a) + join(b) =~= join(b));
    } else {
        assert((a + b).drop_first() =~= a.drop_first() + b);
        lemma_join_append(a.drop_first(), b);
        assert(join(a + b) =~= join(a) + join(b));
    }
}

/// Cutting a text at spans loses nothing and adds nothing, whatever the
/// spans are: the parts, joined in order, are the text.
pub proof fn lemma_parts_lossless(text: Seq<char>, spans: Seq<(usize, usize)>, at: int)
    requires
        0 <= at <= text.len(),
    ensures
        join(parts(text, spans, at)) == text.skip(at),
    decreases spans.len(),
{
    reveal_with_fuel(join, 2);
    if spans.len() == 0 {
        let rest = unmatched_part(text, at, text.len() as int);
        if at < text.len() {
            assert(rest.drop_first() =~= Seq::<Part>::empty());
        }
        assert(text.subrange(at, text.len() as int) =~= text.skip(at));
    } else if span_fits(text, at, spans[0]) {
        let start = char_index(text, spans[0].0 as int);
        let end = char_index(text, spans[0].1 as int);
        lemma_boundary_is_offset(text, spans[0].0 as int);
        lemma_boundary_is_offset(text, spans[0].1 as int);
        if start < at {
            lemma_byte_offset_monotonic(text, start, at);
        }
        if end < start {
            lemma_byte_offset_monotonic(text, end, start);
        }
        let gap = unmatched_part(text, at, start);
        let matched = seq![Part { matched: true, text: text.subrange(start, end) }];
        let rest = parts(text, spans.drop_first(), end);
        lemma_parts_lossless(text, spans.drop_first(), end);
        lemma_join_append(gap + matched, rest);
        lemma_join_append(gap, matched);
        if at < start {
            assert(gap.drop_first() =~= Seq::<Part>::empty());
        }
        assert(matched.drop_first() =~= Seq::<Part>::empty());
        assert(join(gap) =~= text.subrange(at, start));
        assert(join(matched) =~= text.subrange(start, end));
        assert(text.subrange(at, start) + text.subrange(start, end) + text.skip(end) =~= text.skip(
            at,
        ));
    } else {
        lemma_parts_lossless(text, spans.drop_first(), at);
    }
}

/// The texts of the matched parts, in order.
pub open spec fn matched_texts(parts: Seq<Part>) -> Seq<Seq<char>>
    decreases parts.len(),
{
    if parts.len() == 0 {
        seq![]
    } else if parts[0].matched {
        seq![parts[0].text] + matched_texts(parts.drop_first())
    } else {
        matched_texts(parts.drop_first())
    }
}

/// The characters of `text` that a span of byte offsets covers.
pub open spec fn span_text(text: Seq<char>, span: (usize, usize)) -> Seq<char> {
    text.subrange(char_index(text, span.0 as int), char_index(text, span.1 as int))
}

/// No span is passed over where the spans are in order and none begins before
/// `at`: the matched parts are the texts of the spans, one for one.
pub proof fn lemma_every_span_is_cut(text: Seq<char>, spans: Seq<(usize, usize)>, at: int)
    requires
        0 <= at <= text.len(),
        spans_in_order(text, spans),
        forall|i: int| 0 <= i < spans.len() ==> byte_offset(text, at) <= (#[trigger] spans[i]).0,
    ensures
        matched_texts(parts(text, spans, at)) == spans.map_values(
            |span: (usize, usize)| span_text(text, span),
        ),
    decreases spans.len(),
{
    reveal_with_fuel(matched_texts, 3);
    let texts = spans.map_values(|span: (usize, usize)| span_text(text, span));
    if spans.len() == 0 {
        let rest = unmatched_part(text, at, text.len() as int);
        if at < text.len() {
            assert(rest.drop_first() =~= Seq::<Part>::empty());
        }
        assert(matched_texts(rest) =~= texts);
    } else {
        let first = spans[0];
        let others = spans.drop_first();
        let start = char_index(text, first.0 as int);
        let end = char_index(text, first.1 as int);
        assert(span_in_text(text, first));
        lemma_byte_offset_monotonic(text, 0, at);
        lemma_boundary_is_offset(text, first.0 as int);
        lemma_boundary_is_offset(text, first.1 as int);
        assert(span_fits(text, at, first));
        assert forall|i: int| 0 <= i < others.len() implies byte_offset(text, end) <= (
        #[trigger] others[i]).0 by {
            assert(others[i] == spans[i + 1]);
        }
        assert(spans_in_order(text, others)) by {
            assert forall|i: int| 0 <= i < others.len() implies span_in_text(
                text,
                #[trigger] others[i],
            ) by {
                assert(others[i] == spans[i + 1]);
            }
            assert forall|i: int, j: int| 0 <= i < j < others.len() implies (
            #[trigger] others[i]).1 <= (#[trigger] others[j]).0 by {
                assert(others[i] == spans[i + 1]);
                assert(others[j] == spans[j + 1]);
            }
        }
        lemma_every_span_is_cut(text, others, end);
        let gap = unmatched_part(text, at, start);
        let matched = Part { matched: true, text: text.subrange(start, end) };
        let rest = parts(text, others, end);
        let tail = seq![matched] + rest;
        assert(tail.drop_first() =~= rest);
        assert(matched_texts(tail) =~= seq![matched.text] + matched_texts(rest));
        if at < start {
            assert((gap + tail).drop_first() =~= tail);
        } else {
            assert(gap + tail =~= tail);
        }
        assert(gap + seq![matched] + rest =~= gap + tail);
        assert(matched_texts(parts(text, spans, at)) =~= seq![matched.text] + matched_texts(rest));
        assert(texts =~= seq![span_text(text, first)] + others.map_values(
            |span: (usize, usize)| span_text(text, span),
        ));
    }
}

} // verus!
