//! The scanner that tells plain text from text that is already styled, and the
//! step that applies one highlighter to the plain parts only.

use vstd::prelude::*;
use vstd::string::*;
use vstd::utf8::*;
use crate::manifold::Highlight;
use crate::offsets::{byte_offset, char_index, lemma_byte_offset_monotonic, substring};
use crate::search::{
    find_bytes, first_occurrence, lemma_first_occurrence, lemma_first_occurrence_is,
    lemma_first_occurrence_none, lemma_occurrence_in_bytes, lemma_search_in_bytes, occurs_at,
};
use crate::strings::string_with_capacity;

verus! {

/// Upper limit of the capacity that a result starts with.
pub const FOUR_KB: usize = 4 * 1024;

/// Closes a style directive.
pub const RESET_CODE: &'static str = "\x1b[0m";

/// Opens a style directive.
pub const ESCAPE_CODE: &'static str = "\x1b[";

/// The characters of `ESCAPE_CODE`.
pub open spec fn escape_marker() -> Seq<char> {
    seq!['\u{1b}', '[']
}

/// The characters of `RESET_CODE`.
pub open spec fn reset_marker() -> Seq<char> {
    seq!['\u{1b}', '[', '0', 'm']
}

/// The marker that the scanner looks for next: the reset marker while it is
/// inside markup, the escape marker while it is not.
pub open spec fn next_marker(inside: bool) -> Seq<char> {
    if inside {
        reset_marker()
    } else {
        escape_marker()
    }
}

/// A stretch of a text, and whether it is already styled.
pub struct Segment {
    pub styled: bool,
    pub text: Seq<char>,
}

/// A stretch of the input, borrowed from it.
pub enum Chunk<'a> {
    NotHighlighted(&'a str),
    AlreadyHighlighted(&'a str),
}

impl<'a> View for Chunk<'a> {
    type V = Segment;

    open spec fn view(&self) -> Segment {
        match self {
            Chunk::NotHighlighted(text) => Segment { styled: false, text: text@ },
            Chunk::AlreadyHighlighted(text) => Segment { styled: true, text: text@ },
        }
    }
}

/// The segments that a sequence of chunks stands for.
pub open spec fn chunk_views(chunks: Seq<Chunk<'_>>) -> Seq<Segment> {
    chunks.map_values(|chunk: Chunk<'_>| chunk@)
}

/// What is left of `text` from `start` on, as one segment; nothing if that is
/// empty.
pub open spec fn rest_segment(text: Seq<char>, start: int, inside: bool) -> Seq<Segment> {
    if start < text.len() {
        seq![Segment { styled: inside, text: text.skip(start) }]
    } else {
        seq![]
    }
}

/// The segments of `text` from `start` on, for a scanner that is inside
/// markup or not.
///
/// Outside markup, the text up to the next escape marker is plain, and the
/// markup begins at the marker. Inside markup, the text up to the end of the
/// next reset marker is styled. Where the marker that is looked for does not
/// come, the rest is one segment of the current kind.
pub open spec fn scan(text: Seq<char>, start: int, inside: bool) -> Seq<Segment>
    decreases text.len() - start, (if inside { 0int } else { 1int }),
    via scan_decreases
{
    if start < 0 {
        seq![]
    } else if inside {
        match first_occurrence(text, reset_marker(), start) {
            Some(i) => seq![Segment { styled: true, text: text.subrange(start, i + 4) }] + scan(
                text,
                i + 4,
                false,
            ),
            None => rest_segment(text, start, true),
        }
    } else {
        match first_occurrence(text, escape_marker(), start) {
            Some(i) => {
                let plain = if i != start {
                    seq![Segment { styled: false, text: text.subrange(start, i) }]
                } else {
                    seq![]
                };
                plain + scan(text, i, true)
            },
            None => rest_segment(text, start, false),
        }
    }
}

#[via_fn]
proof fn scan_decreases(text: Seq<char>, start: int, inside: bool) {
    if start >= 0 {
        lemma_first_occurrence(text, reset_marker(), start);
        lemma_first_occurrence(text, escape_marker(), start);
    }
}

/// The segments of a text.
pub open spec fn segments(text: Seq<char>) -> Seq<Segment> {
    scan(text, 0, false)
}

/// The texts of the segments, one after the other.
pub open spec fn concat(segments: Seq<Segment>) -> Seq<char>
    decreases segments.len(),
{
    if segments.len() == 0 {
        seq![]
    } else {
        segments[0].text + concat(segments.drop_first())
    }
}

/// The segments one after the other, the plain ones as `highlighter` styles
/// them and the styled ones as they are.
pub open spec fn compose<H: Highlight + ?Sized>(segments: Seq<Segment>, highlighter: &H) -> Seq<char>
    decreases segments.len(),
{
    if segments.len() == 0 {
        seq![]
    } else {
        let first = if segments[0].styled {
            segments[0].text
        } else {
            highlighter.highlighted(segments[0].text)
        };
        first + compose(segments.drop_first(), highlighter)
    }
}

/// What one highlighter makes of a text that may hold styled parts already.
pub open spec fn highlight_unstyled<H: Highlight + ?Sized>(text: Seq<char>, highlighter: &H) -> Seq<char> {
    compose(segments(text), highlighter)
}

/// The two markers are ASCII, and the constants hold them.
proof fn lemma_markers()
    ensures
        ESCAPE_CODE@ == escape_marker(),
        RESET_CODE@ == reset_marker(),
        is_ascii_chars(escape_marker()),
        is_ascii_chars(reset_marker()),
{
    reveal_strlit("\x1b[");
    reveal_strlit("\x1b[0m");
    assert(ESCAPE_CODE@ =~= escape_marker());
    assert(RESET_CODE@ =~= reset_marker());
}

/// Splits `input` into its plain and its styled parts, in order.
pub fn split_into_chunks(input: &str) -> (chunks: Vec<Chunk<'_>>)
    ensures
        chunk_views(chunks@) == segments(input@),
        chunks@.len() == segments(input@).len(),
        forall|i: int| 0 <= i < chunks@.len() ==> (#[trigger] chunks@[i])@ == segments(input@)[i],
{
    let bytes = input.as_bytes();
    let reset = RESET_CODE.as_bytes();
    let escape = ESCAPE_CODE.as_bytes();
    let mut chunks: Vec<Chunk<'_>> = Vec::new();
    let mut start: usize = 0;
    let mut inside_escape = false;
    let ghost mut at: int = 0;
    proof {
        lemma_markers();
        lemma_byte_offset_monotonic(input@, 0, 0);
        assert(chunk_views(chunks@) =~= Seq::<Segment>::empty());
        assert(chunk_views(chunks@) + scan(input@, at, inside_escape) =~= segments(input@));
    }
    loop
        invariant
            bytes@ == encode_utf8(input@),
            reset@ == encode_utf8(reset_marker()),
            escape@ == encode_utf8(escape_marker()),
            is_ascii_chars(escape_marker()),
            is_ascii_chars(reset_marker()),
            0 <= at <= input@.len(),
            start == byte_offset(input@, at),
            chunk_views(chunks@) + scan(input@, at, inside_escape) == segments(input@),
        ensures
            first_occurrence(input@, next_marker(inside_escape), at) is None,
        decreases input@.len() - at, (if inside_escape { 0int } else { 1int }),
    {
        let found = if inside_escape {
            find_bytes(bytes, reset, start)
        } else {
            find_bytes(bytes, escape, start)
        };
        proof {
            lemma_search_in_bytes(input@, next_marker(inside_escape), at);
            lemma_first_occurrence(input@, next_marker(inside_escape), at);
        }
        match found {
            None => {
                break ;
            },
            Some(i) => {
                let ghost ci = char_index(input@, i as int);
                let ghost before = chunk_views(chunks@);
                if inside_escape {
                    proof {
                        lemma_byte_offset_monotonic(input@, ci, ci + 4);
                        lemma_occurrence_in_bytes(input@, reset_marker(), ci);
                        is_ascii_chars_encode_utf8(reset_marker());
                    }
                    let end = i + reset.len();
                    let text = substring(input, start, end, Ghost(at), Ghost(ci + 4));
                    chunks.push(Chunk::AlreadyHighlighted(text));
                    proof {
                        let segment = Segment { styled: true, text: input@.subrange(at, ci + 4) };
                        assert(chunk_views(chunks@) =~= before.push(segment));
                        assert(before.push(segment) + scan(input@, ci + 4, false) =~= before + (
                        seq![segment] + scan(input@, ci + 4, false)));
                        at = ci + 4;
                    }
                    start = end;
                } else {
                    proof {
                        if ci != at {
                            lemma_byte_offset_monotonic(input@, at, ci);
                        }
                    }
                    if i != start {
                        let text = substring(input, start, i, Ghost(at), Ghost(ci));
                        chunks.push(Chunk::NotHighlighted(text));
                        proof {
                            let segment = Segment { styled: false, text: input@.subrange(at, ci) };
                            assert(chunk_views(chunks@) =~= before.push(segment));
                            assert(before.push(segment) + scan(input@, ci, true) =~= before + (
                            seq![segment] + scan(input@, ci, true)));
                        }
                    } else {
                        proof {
                            assert(Seq::<Segment>::empty() + scan(input@, ci, true) =~= scan(
                                input@,
                                ci,
                                true,
                            ));
                        }
                    }
                    proof {
                        at = ci;
                    }
                    start = i;
                }
                inside_escape = !inside_escape;
            },
        }
    }
    proof {
        lemma_byte_offset_monotonic(input@, at, input@.len() as int);
        assert(scan(input@, at, inside_escape) == rest_segment(input@, at, inside_escape));
    }
    if start != bytes.len() {
        let ghost before = chunk_views(chunks@);
        let text = substring(
            input,
            start,
            bytes.len(),
            Ghost(at),
            Ghost(input@.len() as int),
        );
        proof {
            assert(input@.subrange(at, input@.len() as int) =~= input@.skip(at));
        }
        if inside_escape {
            chunks.push(Chunk::AlreadyHighlighted(text));
        } else {
            chunks.push(Chunk::NotHighlighted(text));
        }
        proof {
            let segment = Segment { styled: inside_escape, text: input@.skip(at) };
            assert(chunk_views(chunks@) =~= before.push(segment));
            assert(before.push(segment) =~= before + seq![segment]);
        }
    } else {
        proof {
            assert(chunk_views(chunks@) + Seq::<Segment>::empty() =~= chunk_views(chunks@));
        }
    }
    chunks
}

/// The capacity that a result starts with for an input of `length` bytes:
/// three times the length, but no more than `FOUR_KB`.
pub open spec fn allocation_size(length: int) -> int {
    if 3 * length <= FOUR_KB {
        3 * length
    } else {
        FOUR_KB as int
    }
}

/// An empty string with room for a styled copy of `input`. The capacity only
/// saves reallocations; the result is the same whatever it is.
pub fn allocate_string(input: &str) -> (result: String)
    ensures
        result@ == Seq::<char>::empty(),
{
    let allocation_size = capacity_for(input.len());

    string_with_capacity(allocation_size)
}

/// Computes `allocation_size`.
pub fn capacity_for(length: usize) -> (capacity: usize)
    ensures
        capacity == allocation_size(length as int),
{
    match length.checked_mul(3) {
        Some(input_length_times_3) => if input_length_times_3 <= FOUR_KB {
            input_length_times_3
        } else {
            FOUR_KB
        },
        None => FOUR_KB,
    }
}

/// Applies a highlighter to the parts of `input` that are not styled yet, and
/// keeps the styled parts as they are.
pub fn apply_only_to_unhighlighted<H: Highlight + ?Sized>(input: &str, highlighter: &H) -> (result:
    String)
    ensures
        result@ == highlight_unstyled(input@, highlighter),
{
    let chunks = split_into_chunks(input);
    let mut result = allocate_string(input);
    let mut i: usize = 0;
    let ghost all = chunk_views(chunks@);
    let ghost whole = compose(all, highlighter);
    proof {
        assert(all.skip(0) =~= all);
        assert(result@ + whole =~= whole);
    }
    while i < chunks.len()
        invariant
            i <= chunks.len(),
            all == chunk_views(chunks@),
            whole == compose(all, highlighter),
            result@ + compose(all.skip(i as int), highlighter) == whole,
        decreases chunks.len() - i,
    {
        let ghost before = result@;
        let ghost rest = all.skip(i as int);
        proof {
            assert(rest[0] == chunks@[i as int]@);
            assert(rest.drop_first() =~= all.skip(i + 1));
        }
        match &chunks[i] {
            Chunk::NotHighlighted(text) => {
                let styled = highlighter.apply(text);
                result.append(styled.as_str());
            },
            Chunk::AlreadyHighlighted(text) => {
                result.append(text);
            },
        }
        proof {
            let added = result@.skip(before.len() as int);
            assert(result@ =~= before + added);
            assert((before + added) + compose(rest.drop_first(), highlighter) =~= before + (added
                + compose(rest.drop_first(), highlighter)));
        }
        i = i + 1;
    }
    proof {
        assert(all.skip(all.len() as int) =~= Seq::<Segment>::empty());
        assert(result@ + Seq::<char>::empty() =~= result@);
    }
    result
}

/// Joining distributes over concatenation.
pub proof fn lemma_concat_append(a: Seq<Segment>, b: Seq<Segment>)
    ensures
        concat(a + b) == concat(a) + concat(b),
    decreases a.len(),
{
    if a.len() == 0 {
        assert(a + b =~= b);
        assert(concat(a) + concat(b) =~= concat(b));
    } else {
        assert((a + b).drop_first() =~= a.drop_first() + b);
        lemma_concat_append(a.drop_first(), b);
        assert(concat(a + b) =~= concat(a) + concat(b));
    }
}

/// Composing distributes over concatenation.
pub proof fn lemma_compose_append<H: Highlight + ?Sized>(
    a: Seq<Segment>,
    b: Seq<Segment>,
    highlighter: &H,
)
    ensures
        compose(a + b, highlighter) == compose(a, highlighter) + compose(b, highlighter),
    decreases a.len(),
{
    if a.len() == 0 {
        assert(a + b =~= b);
        assert(compose(a, highlighter) + compose(b, highlighter) =~= compose(b, highlighter));
    } else {
        assert((a + b).drop_first() =~= a.drop_first() + b);
        lemma_compose_append(a.drop_first(), b, highlighter);
        assert(compose(a + b, highlighter) =~= compose(a, highlighter) + compose(b, highlighter));
    }
}

/// A highlighter has no say over segments that are all styled.
pub proof fn lemma_compose_styled<H: Highlight + ?Sized>(segments: Seq<Segment>, highlighter: &H)
    requires
        forall|i: int| 0 <= i < segments.len() ==> segments[i].styled,
    ensures
        compose(segments, highlighter) == concat(segments),
    decreases segments.len(),
{
    if segments.len() > 0 {
        lemma_compose_styled(segments.drop_first(), highlighter);
    }
}

/// A highlighter that leaves each plain segment as it is leaves them all as
/// they are.
pub proof fn lemma_compose_unchanged<H: Highlight + ?Sized>(segments: Seq<Segment>, highlighter: &H)
    requires
        forall|i: int|
            0 <= i < segments.len() && !segments[i].styled ==> highlighter.highlighted(
                #[trigger] segments[i].text,
            ) == segments[i].text,
    ensures
        compose(segments, highlighter) == concat(segments),
    decreases segments.len(),
{
    if segments.len() > 0 {
        let rest = segments.drop_first();
        assert forall|i: int| 0 <= i < rest.len() && !rest[i].styled implies highlighter.highlighted(
            #[trigger] rest[i].text,
        ) == rest[i].text by {
            assert(rest[i] == segments[i + 1]);
        }
        lemma_compose_unchanged(rest, highlighter);
    }
}

/// From any position on, the scanner loses nothing and adds nothing: its
/// segments, joined in order, are the text from that position on. None of
/// them is empty.
pub proof fn lemma_scan_lossless(text: Seq<char>, start: int, inside: bool)
    requires
        0 <= start <= text.len(),
    ensures
        concat(scan(text, start, inside)) == text.skip(start),
        forall|i: int|
            0 <= i < scan(text, start, inside).len() ==> (#[trigger] scan(
                text,
                start,
                inside,
            )[i]).text.len() > 0,
    decreases text.len() - start, (if inside { 0int } else { 1int }),
{
    let found = first_occurrence(text, next_marker(inside), start);
    lemma_first_occurrence(text, next_marker(inside), start);
    match found {
        Some(i) => {
            let next = if inside { i + 4 } else { i };
            let first = Segment { styled: inside, text: text.subrange(start, next) };
            let head = if next != start { seq![first] } else { Seq::<Segment>::empty() };
            let rest = scan(text, next, !inside);
            lemma_scan_lossless(text, next, !inside);
            assert(scan(text, start, inside) == head + rest);
            lemma_concat_append(head, rest);
            assert(concat(head) =~= text.subrange(start, next)) by {
                reveal_with_fuel(concat, 2);
                if next != start {
                    assert(head.drop_first() =~= Seq::<Segment>::empty());
                }
            }
            assert(text.subrange(start, next) + text.skip(next) =~= text.skip(start));
        },
        None => {
            let rest = rest_segment(text, start, inside);
            assert(concat(rest) =~= text.skip(start)) by {
                reveal_with_fuel(concat, 2);
                if start < text.len() {
                    assert(rest.drop_first() =~= Seq::<Segment>::empty());
                }
            }
        },
    }
}

/// The segments of a text are a partition of it: joined in order they give
/// the text, character for character, and none of them is empty.
pub proof fn lemma_segments_lossless(text: Seq<char>)
    ensures
        concat(segments(text)) == text,
        forall|i: int| 0 <= i < segments(text).len() ==> (#[trigger] segments(text)[i]).text.len() > 0,
{
    lemma_scan_lossless(text, 0, false);
    assert(text.skip(0) =~= text);
}

/// A highlighter never touches a segment that is styled already: the segment
/// stands in the result as it stood in the text, between what the highlighter
/// makes of the segments before it and of those behind it.
pub proof fn lemma_styled_segment_kept<H: Highlight + ?Sized>(
    text: Seq<char>,
    highlighter: &H,
    i: int,
)
    requires
        0 <= i < segments(text).len(),
        segments(text)[i].styled,
    ensures
        highlight_unstyled(text, highlighter) == compose(segments(text).take(i), highlighter)
            + segments(text)[i].text + compose(segments(text).skip(i + 1), highlighter),
{
    let all = segments(text);
    let tail = all.skip(i);
    assert(all =~= all.take(i) + tail);
    lemma_compose_append(all.take(i), tail, highlighter);
    assert(tail.drop_first() =~= all.skip(i + 1));
    assert(tail[0] == all[i]);
}

/// A text without a character has no segment.
pub proof fn lemma_segments_of_empty()
    ensures
        segments(Seq::<char>::empty()) == Seq::<Segment>::empty(),
{
    lemma_first_occurrence(Seq::<char>::empty(), escape_marker(), 0);
}

/// A text that opens with the escape marker and has its only reset marker
/// at its very end is one styled segment.
pub proof fn lemma_wrapped_text_is_styled(text: Seq<char>)
    requires
        occurs_at(text, escape_marker(), 0),
        first_occurrence(text, reset_marker(), 0) == Some(text.len() - 4),
    ensures
        segments(text) == seq![Segment { styled: true, text }],
{
    lemma_first_occurrence(text, escape_marker(), 0);
    lemma_first_occurrence(text, reset_marker(), 0);
    lemma_first_occurrence(text, escape_marker(), text.len() as int);
    assert(text.subrange(0, text.len() as int) =~= text);
    assert(scan(text, text.len() as int, false) =~= Seq::<Segment>::empty());
    assert(scan(text, 0, true) =~= seq![Segment { styled: true, text }]);
    assert(Seq::<Segment>::empty() + scan(text, 0, true) =~= scan(text, 0, true));
}

/// Whether a scanner that is at `start`, inside markup or not, is inside
/// markup when it comes to the end of `text`.
pub open spec fn ends_inside(text: Seq<char>, start: int, inside: bool) -> bool
    decreases text.len() - start, (if inside { 0int } else { 1int }),
    via ends_inside_decreases
{
    if start < 0 {
        false
    } else {
        match first_occurrence(text, next_marker(inside), start) {
            Some(i) => ends_inside(text, if inside { i + 4 } else { i }, !inside),
            None => inside,
        }
    }
}

#[via_fn]
proof fn ends_inside_decreases(text: Seq<char>, start: int, inside: bool) {
    if start >= 0 {
        lemma_first_occurrence(text, next_marker(inside), start);
    }
}

/// The text ends in the middle of markup: its last escape marker that opens
/// markup has no reset marker behind it.
pub open spec fn ends_in_markup(text: Seq<char>) -> bool {
    ends_inside(text, 0, false)
}

/// Markup that is opened and never closed: the text begins with the escape
/// marker and holds no reset marker.
pub open spec fn unterminated_markup(text: Seq<char>) -> bool {
    &&& occurs_at(text, escape_marker(), 0)
    &&& first_occurrence(text, reset_marker(), 0) is None
}

/// What is found in a text is found at the same place when more text follows.
pub proof fn lemma_found_in_prefix(head: Seq<char>, tail: Seq<char>, marker: Seq<char>, start: int)
    requires
        0 <= start,
        first_occurrence(head, marker, start) is Some,
    ensures
        first_occurrence(head + tail, marker, start) == first_occurrence(head, marker, start),
{
    let i = first_occurrence(head, marker, start)->0;
    let both = head + tail;
    lemma_first_occurrence(head, marker, start);
    assert(both.subrange(i, i + marker.len()) =~= head.subrange(i, i + marker.len()));
    assert forall|j: int| start <= j < i implies !occurs_at(both, marker, j) by {
        assert(!occurs_at(head, marker, j));
        assert(both.subrange(j, j + marker.len()) =~= head.subrange(j, j + marker.len()));
    }
    lemma_first_occurrence_is(both, marker, start, i);
}

/// Induction behind `lemma_unterminated_markup`.
proof fn lemma_scan_before_markup(head: Seq<char>, tail: Seq<char>, start: int, inside: bool)
    requires
        0 <= start <= head.len(),
        !ends_inside(head, start, inside),
        unterminated_markup(tail),
    ensures
        scan(head + tail, start, inside) == scan(head, start, inside).push(
            Segment { styled: true, text: tail },
        ),
    decreases head.len() - start, (if inside { 0int } else { 1int }),
{
    let both = head + tail;
    let last = Segment { styled: true, text: tail };
    let marker = next_marker(inside);
    lemma_first_occurrence(head, marker, start);
    match first_occurrence(head, marker, start) {
        Some(i) => {
            let next = if inside { i + 4 } else { i };
            lemma_found_in_prefix(head, tail, marker, start);
            lemma_scan_before_markup(head, tail, next, !inside);
            assert(both.subrange(start, next) =~= head.subrange(start, next));
            let first = Segment { styled: inside, text: head.subrange(start, next) };
            let front = if next != start { seq![first] } else { Seq::<Segment>::empty() };
            assert(scan(head, start, inside) == front + scan(head, next, !inside));
            assert(scan(both, start, inside) == front + scan(both, next, !inside));
            assert(front + scan(head, next, !inside).push(last) =~= (front + scan(
                head,
                next,
                !inside,
            )).push(last));
        },
        None => {
            let n = head.len() as int;
            assert(both.subrange(n, n + 2) =~= tail.subrange(0, 2));
            assert(tail.subrange(0, 2)[0] == tail[0]);
            assert(escape_marker()[0] != escape_marker()[1]);
            assert forall|j: int| start <= j < n implies !occurs_at(both, escape_marker(), j) by {
                if j + 2 <= n {
                    assert(!occurs_at(head, escape_marker(), j));
                    assert(both.subrange(j, j + 2) =~= head.subrange(j, j + 2));
                } else if occurs_at(both, escape_marker(), j) {
                    assert(both.subrange(j, j + 2)[1] == tail[0]);
                }
            }
            lemma_first_occurrence_is(both, escape_marker(), start, n);
            lemma_first_occurrence(tail, reset_marker(), 0);
            assert forall|j: int| n <= j implies !occurs_at(both, reset_marker(), j) by {
                if occurs_at(both, reset_marker(), j) {
                    assert(both.subrange(j, j + 4) =~= tail.subrange(j - n, j - n + 4));
                    assert(occurs_at(tail, reset_marker(), j - n));
                }
            }
            lemma_first_occurrence_none(both, reset_marker(), n);
            assert(both.skip(n) =~= tail);
            assert(scan(both, n, true) =~= seq![last]);
            if start < n {
                assert(both.subrange(start, n) =~= head.skip(start));
            }
            assert(scan(both, start, false) =~= scan(head, start, false).push(last));
        },
    }
}

/// Where markup is opened behind a text and never closed, it is one styled
/// segment behind the segments of that text, and a highlighter passes it on
/// as it is. This holds of a text that does not itself end in the middle of
/// markup.
pub proof fn lemma_unterminated_markup<H: Highlight + ?Sized>(
    head: Seq<char>,
    tail: Seq<char>,
    highlighter: &H,
)
    requires
        !ends_in_markup(head),
        unterminated_markup(tail),
    ensures
        segments(head + tail) == segments(head).push(Segment { styled: true, text: tail }),
        highlight_unstyled(head + tail, highlighter) == highlight_unstyled(head, highlighter) + tail,
{
    let last = seq![Segment { styled: true, text: tail }];
    lemma_scan_before_markup(head, tail, 0, false);
    assert(segments(head).push(last[0]) =~= segments(head) + last);
    lemma_compose_append(segments(head), last, highlighter);
    assert(compose(last, highlighter) =~= tail) by {
        reveal_with_fuel(compose, 2);
        assert(last.drop_first() =~= Seq::<Segment>::empty());
    }
}

/// Plain text: not empty, and without an escape marker.
pub open spec fn plain_text(text: Seq<char>) -> bool {
    &&& text.len() > 0
    &&& first_occurrence(text, escape_marker(), 0) is None
}

/// Markup that is opened and closed: the text begins with the escape marker,
/// and its first reset marker is its end.
pub open spec fn closed_markup(text: Seq<char>) -> bool {
    &&& occurs_at(text, escape_marker(), 0)
    &&& first_occurrence(text, reset_marker(), 0) == Some(text.len() - 4)
}

/// The shape of the segments of a text. A plain segment is plain text, and a
/// styled segment follows it unless it is the last. A styled segment is
/// markup that is opened and closed; only the last may be left open.
pub open spec fn well_shaped(segments: Seq<Segment>) -> bool {
    forall|i: int|
        0 <= i < segments.len() ==> if (#[trigger] segments[i]).styled {
            closed_markup(segments[i].text) || (i == segments.len() - 1 && unterminated_markup(
                segments[i].text,
            ))
        } else {
            plain_text(segments[i].text) && (i + 1 < segments.len() ==> segments[i + 1].styled)
        }
}

/// A marker stands in a part of a text where it stands in the text.
pub proof fn lemma_occurs_in_part(text: Seq<char>, marker: Seq<char>, from: int, to: int, j: int)
    requires
        0 <= from <= to <= text.len(),
        0 <= j,
        j + marker.len() <= to - from,
    ensures
        occurs_at(text.subrange(from, to), marker, j) <==> occurs_at(text, marker, from + j),
{
    assert(text.subrange(from, to).subrange(j, j + marker.len()) =~= text.subrange(
        from + j,
        from + j + marker.len(),
    ));
}

/// A part of a text that ends before the marker is found holds no marker.
proof fn lemma_none_in_part(text: Seq<char>, marker: Seq<char>, from: int, to: int)
    requires
        0 <= from <= to <= text.len(),
        forall|j: int| from <= j && j + marker.len() <= to ==> !occurs_at(text, marker, j),
    ensures
        first_occurrence(text.subrange(from, to), marker, 0) is None,
{
    let part = text.subrange(from, to);
    assert forall|j: int| 0 <= j implies !occurs_at(part, marker, j) by {
        if j + marker.len() <= to - from {
            lemma_occurs_in_part(text, marker, from, to, j);
        }
    }
    lemma_first_occurrence_none(part, marker, 0);
}

/// A segment in front of well-shaped segments.
proof fn lemma_well_shaped_after(first: Segment, rest: Seq<Segment>)
    requires
        well_shaped(rest),
        first.styled ==> closed_markup(first.text) || (rest.len() == 0 && unterminated_markup(
            first.text,
        )),
        !first.styled ==> plain_text(first.text) && (rest.len() > 0 ==> rest[0].styled),
    ensures
        well_shaped(seq![first] + rest),
{
    let all = seq![first] + rest;
    assert forall|i: int| 0 <= i < all.len() implies if (#[trigger] all[i]).styled {
        closed_markup(all[i].text) || (i == all.len() - 1 && unterminated_markup(all[i].text))
    } else {
        plain_text(all[i].text) && (i + 1 < all.len() ==> all[i + 1].styled)
    } by {
        if i > 0 {
            assert(all[i] == rest[i - 1]);
            if i + 1 < all.len() {
                assert(all[i + 1] == rest[i]);
            }
        } else if rest.len() > 0 {
            assert(all[1] == rest[0]);
        }
    }
}

/// Induction behind `lemma_segments_shape`.
proof fn lemma_scan_shape(text: Seq<char>, start: int, inside: bool)
    requires
        0 <= start <= text.len(),
        inside ==> occurs_at(text, escape_marker(), start),
    ensures
        well_shaped(scan(text, start, inside)),
        inside ==> scan(text, start, inside).len() > 0 && scan(text, start, inside)[0].styled,
    decreases text.len() - start, (if inside { 0int } else { 1int }),
{
    let end = text.len() as int;
    let marker = next_marker(inside);
    lemma_first_occurrence(text, marker, start);
    match first_occurrence(text, marker, start) {
        Some(i) => {
            if inside {
                let part = text.subrange(start, i + 4);
                let first = Segment { styled: true, text: part };
                lemma_scan_shape(text, i + 4, false);
                lemma_occurs_in_part(text, escape_marker(), start, i + 4, 0);
                lemma_occurs_in_part(text, reset_marker(), start, i + 4, i - start);
                assert forall|j: int| 0 <= j < i - start implies !occurs_at(
                    part,
                    reset_marker(),
                    j,
                ) by {
                    lemma_occurs_in_part(text, reset_marker(), start, i + 4, j);
                }
                lemma_first_occurrence_is(part, reset_marker(), 0, i - start);
                lemma_well_shaped_after(first, scan(text, i + 4, false));
            } else {
                lemma_scan_shape(text, i, true);
                if i != start {
                    let first = Segment { styled: false, text: text.subrange(start, i) };
                    lemma_none_in_part(text, escape_marker(), start, i);
                    lemma_well_shaped_after(first, scan(text, i, true));
                } else {
                    assert(Seq::<Segment>::empty() + scan(text, i, true) =~= scan(text, i, true));
                }
            }
        },
        None => {
            if start < end {
                let first = Segment { styled: inside, text: text.skip(start) };
                assert(text.subrange(start, end) =~= text.skip(start));
                lemma_none_in_part(text, marker, start, end);
                if inside {
                    lemma_occurs_in_part(text, escape_marker(), start, end, 0);
                }
                lemma_well_shaped_after(first, Seq::<Segment>::empty());
                assert(seq![first] + Seq::<Segment>::empty() =~= seq![first]);
            }
        },
    }
}

/// The segments of a text are well shaped. With `lemma_segments_lossless`
/// this tells where the scanner cuts: at each escape marker that plain text
/// runs into, and behind the first reset marker of each piece of markup.
pub proof fn lemma_segments_shape(text: Seq<char>)
    ensures
        well_shaped(segments(text)),
{
    lemma_scan_shape(text, 0, false);
}

} // verus!
