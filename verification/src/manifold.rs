//! The highlighter interface and the pipeline that applies highlighters in order.

use std::sync::Arc;
use vstd::prelude::*;
use vstd::string::*;
use crate::highlighter::number::{number_highlighter, NumberHighlighter, NUMBER_PATTERN};
use crate::highlighter::pattern::compile_outcome;
use crate::highlighter::uuid::{uuid_highlighter, UuidHighlighter, UUID_PATTERN};
use crate::split_and_apply::{
    apply_only_to_unhighlighted, highlight_unstyled, lemma_compose_styled, lemma_compose_unchanged,
    lemma_segments_lossless, lemma_segments_of_empty, segments,
};
use crate::style::{blue_and_italic, colored, cyan, magenta_and_italic, red, Color, Style};

verus! {

/// A rule that styles the tokens it recognises in a stretch of plain text.
///
/// A highlighter is a function of the text alone: `highlighted` says what it
/// makes of a text, and `apply` computes just that.
pub trait Highlight: Sync + Send {
    /// The styled form of `input`. An implementation says here what it makes
    /// of a text; one that does not is held to nothing in particular.
    open spec fn highlighted(&self, input: Seq<char>) -> Seq<char> {
        arbitrary()
    }

    fn apply(&self, input: &str) -> (output: String)
        ensures
            output@ == self.highlighted(input@),
    ;
}

/// A shared highlighter is the highlighter that it shares.
impl<H: Highlight + ?Sized> Highlight for Arc<H> {
    open spec fn highlighted(&self, input: Seq<char>) -> Seq<char> {
        (**self).highlighted(input)
    }

    fn apply(&self, input: &str) -> (output: String) {
        (**self).apply(input)
    }
}

/// One of the highlighters that a pipeline can hold.
pub enum Highlighter {
    Number(NumberHighlighter),
    Uuid(UuidHighlighter),
}

impl Highlight for Highlighter {
    open spec fn highlighted(&self, input: Seq<char>) -> Seq<char> {
        match self {
            Highlighter::Number(highlighter) => highlighter.highlighted(input),
            Highlighter::Uuid(highlighter) => highlighter.highlighted(input),
        }
    }

    fn apply(&self, input: &str) -> (output: String) {
        match self {
            Highlighter::Number(highlighter) => highlighter.apply(input),
            Highlighter::Uuid(highlighter) => highlighter.apply(input),
        }
    }
}

/// What a sequence of highlighters makes of a text: each in turn works on
/// what the ones before it have left plain.
pub open spec fn highlight_all<H: Highlight>(highlighters: Seq<H>, text: Seq<char>) -> Seq<char>
    decreases highlighters.len(),
{
    if highlighters.len() == 0 {
        text
    } else {
        highlight_unstyled(highlight_all(highlighters.drop_last(), text), &highlighters.last())
    }
}

/// The pipeline with a number highlighter in `style` added at its end; the
/// pipeline as it is, where the pattern compiler refuses `NUMBER_PATTERN`.
pub open spec fn with_number(pipeline: Seq<Highlighter>, style: Style) -> Seq<Highlighter> {
    match number_highlighter(compile_outcome(NUMBER_PATTERN@), style) {
        Ok(highlighter) => pipeline.push(Highlighter::Number(highlighter)),
        Err(_) => pipeline,
    }
}

/// The pipeline with a UUID highlighter in the three styles added at its end;
/// the pipeline as it is, where the pattern compiler refuses `UUID_PATTERN`.
pub open spec fn with_uuid(
    pipeline: Seq<Highlighter>,
    number: Style,
    letter: Style,
    dash: Style,
) -> Seq<Highlighter> {
    match uuid_highlighter(compile_outcome(UUID_PATTERN@), number, letter, dash) {
        Ok(highlighter) => pipeline.push(Highlighter::Uuid(highlighter)),
        Err(_) => pipeline,
    }
}

/// The pipeline that is used where none is asked for: numbers in cyan first,
/// then UUIDs with blue italic digits, magenta italic letters and red hyphens.
pub open spec fn default_pipeline() -> Seq<Highlighter> {
    with_uuid(
        with_number(Seq::empty(), colored(Color::Cyan)),
        Style { italic: true, ..colored(Color::Blue) },
        Style { italic: true, ..colored(Color::Magenta) },
        colored(Color::Red),
    )
}

/// An ordered pipeline of highlighters.
pub struct Manifold {
    highlighters: Vec<Highlighter>,
}

impl View for Manifold {
    type V = Seq<Highlighter>;

    closed spec fn view(&self) -> Seq<Highlighter> {
        self.highlighters@
    }
}

impl Manifold {
    /// The pipeline without a highlighter.
    fn new() -> (made: Self)
        ensures
            made@ == Seq::<Highlighter>::empty(),
    {
        Manifold { highlighters: Vec::new() }
    }

    /// A builder that has collected nothing yet.
    pub fn builder() -> (made: ManifoldBuilder)
        ensures
            made@ == Seq::<Highlighter>::empty(),
    {
        ManifoldBuilder { highlighters: Vec::new() }
    }

    /// The pipeline of the given highlighters.
    fn with_highlighters(self, highlighters: Vec<Highlighter>) -> (made: Self)
        ensures
            made@ == highlighters@,
    {
        let mut manifold = self;
        manifold.highlighters = highlighters;
        manifold
    }

    /// Applies the highlighters to `text`, in their order.
    pub fn apply(self, text: String) -> (output: String)
        ensures
            output@ == highlight_all(self@, text@),
    {
        let mut output = text;
        let mut i: usize = 0;
        proof {
            assert(self@.take(0) =~= Seq::<Highlighter>::empty());
        }
        while i < self.highlighters.len()
            invariant
                i <= self.highlighters.len(),
                output@ == highlight_all(self@.take(i as int), text@),
            decreases self.highlighters.len() - i,
        {
            proof {
                assert(self@.take(i + 1).drop_last() =~= self@.take(i as int));
            }
            output = apply_only_to_unhighlighted(output.as_str(), &self.highlighters[i]);
            i = i + 1;
        }
        proof {
            assert(self@.take(self@.len() as int) =~= self@);
        }
        output
    }
}

impl Default for Manifold {
    /// The pipeline of numbers first and UUIDs second, in their usual styles.
    fn default() -> (made: Self)
        ensures
            made@ == default_pipeline(),
    {
        Manifold::builder().with_number_highlighter().with_uuid_highlighter().build()
    }
}

/// Collects the highlighters of a pipeline, in the order of the calls.
pub struct ManifoldBuilder {
    highlighters: Vec<Highlighter>,
}

impl View for ManifoldBuilder {
    type V = Seq<Highlighter>;

    closed spec fn view(&self) -> Seq<Highlighter> {
        self.highlighters@
    }
}

impl ManifoldBuilder {
    /// Adds a number highlighter in cyan.
    pub fn with_number_highlighter(self) -> (made: Self)
        ensures
            made@ == with_number(self@, colored(Color::Cyan)),
    {
        self.with_number_highlighter_from_style(cyan())
    }

    /// Adds a number highlighter in `style`. Where the pattern compiler
    /// refuses the pattern of numbers, nothing is added.
    pub fn with_number_highlighter_from_style(self, style: Style) -> (made: Self)
        ensures
            made@ == with_number(self@, style),
    {
        match NumberHighlighter::new(style) {
            Ok(highlighter) => self.add_highlighter(Highlighter::Number(highlighter)),
            Err(_) => self,
        }
    }

    /// Adds a UUID highlighter with blue italic digits, magenta italic
    /// letters and red hyphens.
    pub fn with_uuid_highlighter(self) -> (made: Self)
        ensures
            made@ == with_uuid(
                self@,
                Style { italic: true, ..colored(Color::Blue) },
                Style { italic: true, ..colored(Color::Magenta) },
                colored(Color::Red),
            ),
    {
        self.with_uuid_highlighter_from_style(blue_and_italic(), magenta_and_italic(), red())
    }

    /// Adds a UUID highlighter in the three styles. Where the pattern
    /// compiler refuses the pattern of UUIDs, nothing is added.
    pub fn with_uuid_highlighter_from_style(self, number: Style, letter: Style, dash: Style) -> (made:
        Self)
        ensures
            made@ == with_uuid(self@, number, letter, dash),
    {
        match UuidHighlighter::new(number, letter, dash) {
            Ok(highlighter) => self.add_highlighter(Highlighter::Uuid(highlighter)),
            Err(_) => self,
        }
    }

    /// Adds a highlighter behind those collected so far.
    fn add_highlighter(self, highlighter: Highlighter) -> (made: Self)
        ensures
            made@ == self@.push(highlighter),
    {
        let mut builder = self;
        builder.highlighters.push(highlighter);

        builder
    }

    /// The pipeline of the highlighters collected so far.
    pub fn build(self) -> (made: Manifold)
        ensures
            made@ == self@,
    {
        Manifold::new().with_highlighters(self.highlighters)
    }
}

/// Every part of the text is styled already.
pub open spec fn fully_styled(text: Seq<char>) -> bool {
    forall|i: int| 0 <= i < segments(text).len() ==> (#[trigger] segments(text)[i]).styled
}

/// The highlighter finds nothing to style in any plain part of the text.
pub open spec fn leaves_plain<H: Highlight + ?Sized>(highlighter: &H, text: Seq<char>) -> bool {
    forall|i: int|
        0 <= i < segments(text).len() && !segments(text)[i].styled ==> highlighter.highlighted(
            #[trigger] segments(text)[i].text,
        ) == segments(text)[i].text
}

/// A text that is styled all over comes out of every pipeline as it went in.
pub proof fn lemma_styled_text_unchanged<H: Highlight>(highlighters: Seq<H>, text: Seq<char>)
    requires
        fully_styled(text),
    ensures
        highlight_all(highlighters, text) == text,
    decreases highlighters.len(),
{
    if highlighters.len() > 0 {
        lemma_styled_text_unchanged(highlighters.drop_last(), text);
        lemma_compose_styled(segments(text), &highlighters.last());
        lemma_segments_lossless(text);
    }
}

/// A text in which no highlighter of the pipeline finds anything to style
/// comes out as it went in.
pub proof fn lemma_nothing_to_style<H: Highlight>(highlighters: Seq<H>, text: Seq<char>)
    requires
        forall|k: int| 0 <= k < highlighters.len() ==> leaves_plain(&#[trigger] highlighters[k], text),
    ensures
        highlight_all(highlighters, text) == text,
    decreases highlighters.len(),
{
    if highlighters.len() > 0 {
        let before = highlighters.drop_last();
        assert forall|k: int| 0 <= k < before.len() implies leaves_plain(&#[trigger] before[k], text) by {
            assert(before[k] == highlighters[k]);
        }
        lemma_nothing_to_style(before, text);
        assert(leaves_plain(&highlighters[highlighters.len() - 1], text));
        lemma_compose_unchanged(segments(text), &highlighters.last());
        lemma_segments_lossless(text);
    }
}

/// The empty text comes out of every pipeline empty.
pub proof fn lemma_empty_text<H: Highlight>(highlighters: Seq<H>)
    ensures
        highlight_all(highlighters, Seq::<char>::empty()) == Seq::<char>::empty(),
    decreases highlighters.len(),
{
    if highlighters.len() > 0 {
        lemma_empty_text(highlighters.drop_last());
        lemma_segments_of_empty();
    }
}

} // verus!
