//! Searching a text for a fixed marker.
//!
//! The specification is over characters. The search itself runs over the
//! bytes of the UTF-8 encoding, which finds the same places as long as the
//! marker is ASCII.

use vstd::prelude::*;
use vstd::utf8::*;
use crate::offsets::{
    byte_offset, char_index, lemma_ascii_char, lemma_byte_offset_monotonic, lemma_char_index,
    lemma_encode_subrange,
};

verus! {

/// `needle` stands in `haystack` at position `i`.
pub open spec fn occurs_at<T>(haystack: Seq<T>, needle: Seq<T>, i: int) -> bool {
    &&& 0 <= i
    &&& i + needle.len() <= haystack.len()
    &&& haystack.subrange(i, i + needle.len()) == needle
}

/// The first position at or after `from` at which `needle` stands in
/// `haystack`, if there is one.
pub open spec fn first_occurrence<T>(haystack: Seq<T>, needle: Seq<T>, from: int) -> Option<int>
    decreases haystack.len() + 1 - from,
{
    if from < 0 || from + needle.len() > haystack.len() {
        None
    } else if occurs_at(haystack, needle, from) {
        Some(from)
    } else {
        first_occurrence(haystack, needle, from + 1)
    }
}

/// What `first_occurrence` finds is an occurrence, and nothing stands before it.
pub proof fn lemma_first_occurrence<T>(haystack: Seq<T>, needle: Seq<T>, from: int)
    requires
        0 <= from,
    ensures
        match first_occurrence(haystack, needle, from) {
            Some(i) => {
                &&& from <= i
                &&& occurs_at(haystack, needle, i)
                &&& forall|j: int| from <= j < i ==> !occurs_at(haystack, needle, j)
            },
            None => forall|j: int| from <= j ==> !occurs_at(haystack, needle, j),
        },
    decreases haystack.len() + 1 - from,
{
    if from + needle.len() <= haystack.len() && !occurs_at(haystack, needle, from) {
        lemma_first_occurrence(haystack, needle, from + 1);
    }
}

/// An occurrence with none before it is the one that `first_occurrence` finds.
pub proof fn lemma_first_occurrence_is<T>(haystack: Seq<T>, needle: Seq<T>, from: int, i: int)
    requires
        0 <= from <= i,
        occurs_at(haystack, needle, i),
        forall|j: int| from <= j < i ==> !occurs_at(haystack, needle, j),
    ensures
        first_occurrence(haystack, needle, from) == Some(i),
{
    lemma_first_occurrence(haystack, needle, from);
}

/// Where nothing occurs, `first_occurrence` finds nothing.
pub proof fn lemma_first_occurrence_none<T>(haystack: Seq<T>, needle: Seq<T>, from: int)
    requires
        0 <= from,
        forall|j: int| from <= j ==> !occurs_at(haystack, needle, j),
    ensures
        first_occurrence(haystack, needle, from) is None,
{
    lemma_first_occurrence(haystack, needle, from);
}

/// An occurrence among the characters is an occurrence among the bytes.
pub proof fn lemma_occurrence_in_bytes(text: Seq<char>, marker: Seq<char>, k: int)
    requires
        occurs_at(text, marker, k),
    ensures
        occurs_at(encode_utf8(text), encode_utf8(marker), byte_offset(text, k)),
        byte_offset(text, k + marker.len()) == byte_offset(text, k) + encode_utf8(marker).len(),
{
    lemma_encode_subrange(text, k, k + marker.len());
    lemma_byte_offset_monotonic(text, 0, k);
}

/// An occurrence of an ASCII marker among the bytes starts at a character and
/// is an occurrence among the characters.
pub proof fn lemma_occurrence_in_chars(text: Seq<char>, marker: Seq<char>, j: int)
    requires
        marker.len() > 0,
        is_ascii_chars(marker),
        occurs_at(encode_utf8(text), encode_utf8(marker), j),
    ensures
        0 <= char_index(text, j),
        byte_offset(text, char_index(text, j)) == j,
        occurs_at(text, marker, char_index(text, j)),
{
    let bytes = encode_utf8(text);
    let needle = encode_utf8(marker);
    is_ascii_chars_encode_utf8(marker);
    assert(forall|i: int| 0 <= i < needle.len() ==> bytes[j + i] == #[trigger] bytes.subrange(j, j + needle.len())[i]);
    assert(bytes[j] == needle[0]);
    assert('\0' <= marker[0] <= '\u{7f}');
    lemma_char_index(text, j);
    let k = char_index(text, j);
    lemma_chars_under_ascii_bytes(text, marker, k, marker.len() as int);
    assert(text.subrange(k, k + marker.len()) =~= marker);
}

/// Induction behind `lemma_occurrence_in_chars`: the first `n` characters of
/// the marker.
proof fn lemma_chars_under_ascii_bytes(text: Seq<char>, marker: Seq<char>, k: int, n: int)
    requires
        0 <= k <= text.len(),
        0 <= n <= marker.len(),
        is_ascii_chars(marker),
        occurs_at(encode_utf8(text), encode_utf8(marker), byte_offset(text, k)),
    ensures
        k + n <= text.len(),
        byte_offset(text, k + n) == byte_offset(text, k) + n,
        forall|i: int| 0 <= i < n ==> text[k + i] == marker[i],
    decreases n,
{
    if n > 0 {
        let bytes = encode_utf8(text);
        let needle = encode_utf8(marker);
        let j = byte_offset(text, k);
        lemma_chars_under_ascii_bytes(text, marker, k, n - 1);
        is_ascii_chars_encode_utf8(marker);
        let at = k + n - 1;
        assert(bytes[j + n - 1] == bytes.subrange(j, j + needle.len())[n - 1]);
        assert('\0' <= marker[n - 1] <= '\u{7f}');
        lemma_byte_offset_monotonic(text, at, text.len() as int);
        lemma_ascii_char(text, at);
        char_u32_cast(text[at], text[at] as u32);
        char_u32_cast(marker[n - 1], marker[n - 1] as u32);
    }
}

/// Searching the bytes from the offset of character `k` for an ASCII marker
/// finds what searching the characters from `k` finds.
pub proof fn lemma_search_in_bytes(text: Seq<char>, marker: Seq<char>, k: int)
    requires
        0 <= k <= text.len(),
        marker.len() > 0,
        is_ascii_chars(marker),
    ensures
        match first_occurrence(encode_utf8(text), encode_utf8(marker), byte_offset(text, k)) {
            Some(j) => {
                &&& first_occurrence(text, marker, k) == Some(char_index(text, j))
                &&& byte_offset(text, char_index(text, j)) == j
            },
            None => first_occurrence(text, marker, k) is None,
        },
{
    let bytes = encode_utf8(text);
    let needle = encode_utf8(marker);
    let from = byte_offset(text, k);
    lemma_byte_offset_monotonic(text, 0, k);
    lemma_first_occurrence(bytes, needle, from);
    match first_occurrence(bytes, needle, from) {
        Some(j) => {
            lemma_occurrence_in_chars(text, marker, j);
            let found = char_index(text, j);
            if found < k {
                lemma_byte_offset_monotonic(text, found, k);
            }
            assert forall|i: int| k <= i < found implies !occurs_at(text, marker, i) by {
                if occurs_at(text, marker, i) {
                    lemma_occurrence_in_bytes(text, marker, i);
                    lemma_byte_offset_monotonic(text, k, i);
                    lemma_byte_offset_monotonic(text, i, found);
                }
            }
            lemma_first_occurrence_is(text, marker, k, found);
        },
        None => {
            assert forall|i: int| k <= i implies !occurs_at(text, marker, i) by {
                if occurs_at(text, marker, i) {
                    lemma_occurrence_in_bytes(text, marker, i);
                    lemma_byte_offset_monotonic(text, k, i);
                }
            }
            lemma_first_occurrence_none(text, marker, k);
        },
    }
}

/// Whether `needle` stands in `haystack` at byte `at`.
fn stands_at(haystack: &[u8], needle: &[u8], at: usize) -> (found: bool)
    requires
        at + needle.len() <= haystack.len(),
    ensures
        found == occurs_at(haystack@, needle@, at as int),
{
    let mut i: usize = 0;
    while i < needle.len()
        invariant
            i <= needle.len(),
            at + needle.len() <= haystack.len(),
            forall|t: int| 0 <= t < i ==> haystack@[at + t] == needle@[t],
        decreases needle.len() - i,
    {
        if haystack[at + i] != needle[i] {
            proof {
                let part = haystack@.subrange(at as int, at + needle.len());
                assert(part[i as int] != needle@[i as int]);
            }
            return false;
        }
        i = i + 1;
    }
    proof {
        assert(haystack@.subrange(at as int, at + needle.len()) =~= needle@);
    }
    true
}

/// The first byte offset at or after `from` at which `needle` stands in
/// `haystack`.
pub fn find_bytes(haystack: &[u8], needle: &[u8], from: usize) -> (found: Option<usize>)
    ensures
        match first_occurrence(haystack@, needle@, from as int) {
            Some(i) => found == Some(i as usize) && i <= haystack.len(),
            None => found is None,
        },
{
    if needle.len() > haystack.len() {
        return None;
    }
    let last: usize = haystack.len() - needle.len();
    let mut at: usize = from;
    while at <= last
        invariant
            last == haystack.len() - needle.len(),
            needle.len() <= haystack.len(),
            from <= at,
            first_occurrence(haystack@, needle@, from as int) == first_occurrence(
                haystack@,
                needle@,
                at as int,
            ),
        decreases last + 1 - at,
    {
        if stands_at(haystack, needle, at) {
            return Some(at);
        }
        if at == last {
            return None;
        }
        at = at + 1;
    }
    None
}

} // verus!
