//! What holds of every text by byte offsets.

use crate::bytes::{
    after, before, between_chars, lemma_concat_boundary, lemma_encode_add, lemma_parted_twice,
    next_between, part, size, with, without,
};
use crate::laws::editing::lemma_whole_char;
use crate::tui::input::{lemma_run_end, lemma_run_start, one_line, run_end, run_start, selection};
use crate::tui::input::{word_after, word_before};
use vstd::prelude::*;
use vstd::utf8::{encode_utf8, is_ascii_chars, is_ascii_chars_encode_utf8};

verus! {

/// Offsets count the bytes of what stands before them: of three texts in a row, the middle one
/// lies from the size of the first up to the size of the first two, and is what is taken out or
/// put in there.
pub proof fn offsets_count_bytes(a: Seq<char>, b: Seq<char>, c: Seq<char>)
    ensures
        size(a + b) == size(a) + size(b),
        between_chars(a + b + c, size(a) as int),
        between_chars(a + b + c, (size(a) + size(b)) as int),
        before(a + b, size(a) as int) == a,
        after(a + b, size(a) as int) == b,
        part(a + b + c, size(a) as int, (size(a) + size(b)) as int) == b,
        without(a + b + c, size(a) as int, (size(a) + size(b)) as int) == a + c,
        with(a + c, size(a) as int, b) == a + b + c,
{
    lemma_encode_add(a, b);
    lemma_concat_boundary(a, b);
    lemma_concat_boundary(a, b + c);
    lemma_concat_boundary(a + b, c);
    lemma_concat_boundary(a, c);
    assert(a + b + c =~= a + (b + c));
    let n = size(a) as int;
    let m = (size(a) + size(b)) as int;
    lemma_parted_twice(a + b + c, n, m);
    assert(part(a + b + c, n, m) == after(a + b, n));
}

/// The next offset between characters is behind the next character, whatever its size.
pub proof fn the_next_offset_is_behind_a_character(a: Seq<char>, c: char, b: Seq<char>)
    ensures
        next_between(a + seq![c] + b, size(a) as int) == size(a) + size(seq![c]),
{
    lemma_concat_boundary(a, b);
    lemma_whole_char(a + b, size(a) as int, c);
}

/// An ASCII text takes a byte for every character.
pub proof fn ascii_takes_a_byte_a_character(s: Seq<char>)
    requires
        is_ascii_chars(s),
    ensures
        size(s) == s.len(),
{
    is_ascii_chars_encode_utf8(s);
}

/// A blank, a tab, or an end of line or page, as a byte.
pub open spec fn is_blank_byte(b: u8) -> bool {
    b == 0x20 || b == 0x09 || b == 0x0a || b == 0x0c || b == 0x0d
}

/// A word back goes over the blanks before an offset and then over the word before them, to the
/// start of that word.
pub proof fn a_word_back_goes_to_its_start(text: Seq<char>, cursor: int)
    requires
        0 <= cursor <= size(text),
    ensures
        ({
            let b = encode_utf8(text);
            let to = word_before(text, cursor);
            &&& 0 <= to <= cursor
            &&& exists|m: int|
                #![trigger b[m]]
                to <= m <= cursor && (forall|k: int| to <= k < m ==> !is_blank_byte(
                    #[trigger] b[k],
                )) && (forall|k: int| m <= k < cursor ==> is_blank_byte(#[trigger] b[k])) && (m
                    > 0 ==> !is_blank_byte(b[m - 1]))
            &&& to > 0 ==> is_blank_byte(b[to - 1])
        }),
{
    let b = encode_utf8(text);
    lemma_run_start(b, cursor, true);
    let m = run_start(b, cursor, true);
    lemma_run_start(b, m, false);
    let to = word_before(text, cursor);
    assert(to == run_start(b, m, false));
    let at_m = b[m];
}

/// A word on goes over the rest of the word at an offset and then over the blanks behind it, to
/// the start of the next word.
pub proof fn a_word_on_goes_to_the_next_start(text: Seq<char>, cursor: int)
    requires
        0 <= cursor <= size(text),
    ensures
        ({
            let b = encode_utf8(text);
            let to = word_after(text, cursor);
            &&& cursor <= to <= size(text)
            &&& exists|m: int|
                #![trigger b[m]]
                cursor <= m <= to && (forall|k: int| cursor <= k < m ==> !is_blank_byte(
                    #[trigger] b[k],
                )) && (forall|k: int| m <= k < to ==> is_blank_byte(#[trigger] b[k])) && (m
                    < b.len() ==> is_blank_byte(b[m]))
            &&& to < size(text) ==> !is_blank_byte(b[to])
        }),
{
    let b = encode_utf8(text);
    lemma_run_end(b, cursor, false);
    let m = run_end(b, cursor, false);
    lemma_run_end(b, m, true);
    let to = word_after(text, cursor);
    assert(to == run_end(b, m, true));
    let at_m = b[m];
}

/// What is selected lies between the cursor and where the selection began, whichever comes first;
/// if both are at one place, or no selection began, nothing is.
pub proof fn a_selection_lies_between(low: usize, high: usize)
    requires
        low < high,
    ensures
        selection(high, Some(low)) == Some((low, high)),
        selection(low, Some(high)) == Some((low, high)),
        selection(low, Some(low)) is None,
        selection(low, None) is None,
{
}

/// A pasted text has blanks for its line ends and is otherwise what was copied.
pub proof fn line_ends_become_blanks(text: Seq<char>, i: int)
    requires
        0 <= i < text.len(),
    ensures
        one_line(text).len() == text.len(),
        text[i] == '\n' || text[i] == '\r' ==> one_line(text)[i] == ' ',
        text[i] != '\n' && text[i] != '\r' ==> one_line(text)[i] == text[i],
{
}

} // verus!
