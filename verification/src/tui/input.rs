//! The search line: text, a cursor and a selection, all by byte offsets.

use crate::bytes::{
    after, before, between_chars, insert_text, lemma_between_bound, lemma_concat_boundary,
    lemma_ends, lemma_parted, lemma_with_without, len, middle, part, remove_range, size, with, without,
};
use crate::text::{optional, to_chars};
use vstd::prelude::*;
use vstd::utf8::{
    encode_utf8, encode_utf8_valid_utf8, is_char_boundary_iff_not_is_continuation_byte, valid_utf8,
};

verus! {

/// The text being edited, with the cursor and the other end of the selection.
pub struct InputLine {
    pub text: String,
    /// Where the cursor stands.
    pub cursor: usize,
    /// Where a selection began.
    pub anchor: Option<usize>,
}

/// A line's text, cursor and selection start.
#[verifier::ext_equal]
pub struct LineView {
    pub text: Seq<char>,
    pub cursor: usize,
    pub anchor: Option<usize>,
}

impl View for InputLine {
    type V = LineView;

    open spec fn view(&self) -> LineView {
        LineView { text: self.text@, cursor: self.cursor, anchor: self.anchor }
    }
}

/// The range between a selection's start and the cursor, unless it is empty.
pub open spec fn selection(cursor: usize, anchor: Option<usize>) -> Option<(usize, usize)> {
    match anchor {
        None => None,
        Some(a) => if a == cursor {
            None
        } else if a < cursor {
            Some((a, cursor))
        } else {
            Some((cursor, a))
        },
    }
}

impl LineView {
    /// What is selected.
    pub open spec fn selected(self) -> Option<(usize, usize)> {
        selection(self.cursor, self.anchor)
    }

    /// The cursor lies within the text.
    pub open spec fn wf(self) -> bool {
        self.cursor <= size(self.text)
    }

    /// What is selected begins and ends between characters of the text.
    pub open spec fn selection_fits(self) -> bool {
        self.selected() matches Some((start, end)) ==> between_chars(self.text, start as int)
            && between_chars(self.text, end as int)
    }

    /// The line without what is selected.
    pub open spec fn deleted(self) -> LineView {
        match self.selected() {
            Some((start, end)) => LineView {
                text: without(self.text, start as int, end as int),
                cursor: start,
                anchor: None,
            },
            None => self,
        }
    }

    /// What is selected, as text.
    pub open spec fn selected_text(self) -> Option<Seq<char>> {
        match self.selected() {
            Some((start, end)) => Some(part(self.text, start as int, end as int)),
            None => None,
        }
    }

    /// Text can be put in here once what is selected is gone.
    pub open spec fn insertable(self) -> bool {
        self.selection_fits() && (self.selected() is None ==> between_chars(
            self.text,
            self.cursor as int,
        ))
    }

    /// The line with a text in place of what is selected, and the cursor `step` further on.
    pub open spec fn inserted(self, text: Seq<char>, step: int) -> LineView {
        let line = self.deleted();
        LineView {
            text: with(line.text, line.cursor as int, text),
            cursor: (line.cursor + step) as usize,
            anchor: None,
        }
    }
}

/// An ASCII white space byte.
pub open spec fn is_space(b: u8) -> bool {
    b == 0x20 || b == 0x09 || b == 0x0a || b == 0x0c || b == 0x0d
}

/// The start of the run of bytes before `i` that are all white space, or all not.
pub open spec fn run_start(b: Seq<u8>, i: int, space: bool) -> int
    decreases i,
{
    if 0 < i <= b.len() && is_space(b[i - 1]) == space {
        run_start(b, i - 1, space)
    } else {
        i
    }
}

/// The end of the run of bytes from `i` on that are all white space, or all not.
pub open spec fn run_end(b: Seq<u8>, i: int, space: bool) -> int
    decreases b.len() - i,
{
    if 0 <= i < b.len() && is_space(b[i]) == space {
        run_end(b, i + 1, space)
    } else {
        i
    }
}

/// An offset, or the end of the text if that comes first.
pub open spec fn clipped(b: Seq<u8>, i: int) -> int {
    if i <= b.len() {
        i
    } else {
        b.len() as int
    }
}

/// The start of the word before an offset.
pub open spec fn word_before(text: Seq<char>, cursor: int) -> int {
    let b = encode_utf8(text);
    run_start(b, run_start(b, clipped(b, cursor), true), false)
}

/// The start of the word behind an offset.
pub open spec fn word_after(text: Seq<char>, cursor: int) -> int {
    let b = encode_utf8(text);
    run_end(b, run_end(b, clipped(b, cursor), false), true)
}

/// A pasted text: line ends become blanks.
pub open spec fn one_line(text: Seq<char>) -> Seq<char> {
    text.map_values(|c: char| if c == '\n' || c == '\r' { ' ' } else { c })
}

/// The range between a selection's start and the cursor, unless it is empty.
pub fn current_selection_range(cursor_position: usize, selection_anchor: Option<usize>) -> (r: Option<
    (usize, usize),
>)
    ensures
        r == selection(cursor_position, selection_anchor),
{
    match selection_anchor {
        None => None,
        Some(anchor) => if anchor == cursor_position {
            None
        } else if anchor < cursor_position {
            Some((anchor, cursor_position))
        } else {
            Some((cursor_position, anchor))
        },
    }
}

/// Deletes what is selected and tells whether anything was.
pub fn delete_selection_if_any(line: &mut InputLine) -> (r: bool)
    requires
        old(line)@.selection_fits(),
    ensures
        r == (old(line)@.selected() is Some),
        final(line)@ == old(line)@.deleted(),
{
    if let Some((start, end)) = current_selection_range(line.cursor, line.anchor) {
        line.text = remove_range(line.text.as_str(), start, end);
        line.cursor = start;
        line.anchor = None;
        return true;
    }
    false
}

/// A run of bytes starts where it cannot be longer.
pub proof fn lemma_run_start(b: Seq<u8>, i: int, space: bool)
    requires
        0 <= i <= b.len(),
    ensures
        0 <= run_start(b, i, space) <= i,
        run_start(b, i, space) > 0 ==> is_space(b[run_start(b, i, space) - 1]) != space,
        forall|k: int| run_start(b, i, space) <= k < i ==> is_space(#[trigger] b[k]) == space,
    decreases i,
{
    if i > 0 && is_space(b[i - 1]) == space {
        lemma_run_start(b, i - 1, space);
    }
}

/// A run of bytes ends where it cannot be longer.
pub proof fn lemma_run_end(b: Seq<u8>, i: int, space: bool)
    requires
        0 <= i <= b.len(),
    ensures
        i <= run_end(b, i, space) <= b.len(),
        run_end(b, i, space) < b.len() ==> is_space(b[run_end(b, i, space)]) != space,
        forall|k: int| i <= k < run_end(b, i, space) ==> is_space(#[trigger] b[k]) == space,
    decreases b.len() - i,
{
    if i < b.len() && is_space(b[i]) == space {
        lemma_run_end(b, i + 1, space);
    }
}

/// Behind a white space byte a character begins, or the text ends.
proof fn lemma_behind_space(text: Seq<char>, i: int)
    requires
        0 < i <= size(text),
        is_space(encode_utf8(text)[i - 1]),
    ensures
        between_chars(text, i),
{
    let b = encode_utf8(text);
    encode_utf8_valid_utf8(text);
    is_char_boundary_iff_not_is_continuation_byte(b, i - 1);
    lemma_parted(text, i - 1);
    let rest = b.subrange(i - 1, b.len() as int);
    encode_utf8_valid_utf8(after(text, i - 1));
    assert(rest[0] == b[i - 1]);
    assert(vstd::utf8::length_of_first_scalar(rest) == 1);
    let tail = vstd::utf8::pop_first_scalar(rest);
    assert(valid_utf8(tail));
    if i < b.len() {
        assert(tail[0] == b[i]);
        vstd::utf8::is_char_boundary_start_end_of_seq(tail);
        is_char_boundary_iff_not_is_continuation_byte(tail, 0);
        is_char_boundary_iff_not_is_continuation_byte(b, i);
    } else {
        lemma_ends(text);
    }
}

/// The start of a word lies within the text, between characters, not behind the offset.
pub proof fn lemma_word_before(text: Seq<char>, cursor: int)
    requires
        0 <= cursor,
    ensures
        0 <= word_before(text, cursor) <= clipped(encode_utf8(text), cursor) <= size(text),
        between_chars(text, word_before(text, cursor)),
{
    let b = encode_utf8(text);
    let i = clipped(b, cursor);
    lemma_run_start(b, i, true);
    lemma_run_start(b, run_start(b, i, true), false);
    let w = word_before(text, cursor);
    if w == 0 {
        lemma_ends(text);
    } else {
        lemma_behind_space(text, w);
    }
}

/// The next word starts within the text, not before the offset.
pub proof fn lemma_word_after(text: Seq<char>, cursor: int)
    requires
        0 <= cursor,
    ensures
        clipped(encode_utf8(text), cursor) <= word_after(text, cursor) <= size(text),
{
    let b = encode_utf8(text);
    let i = clipped(b, cursor);
    lemma_run_end(b, i, false);
    lemma_run_end(b, run_end(b, i, false), true);
}

/// Tells whether a byte is ASCII white space.
fn is_ascii_space(b: u8) -> (r: bool)
    ensures
        r == is_space(b),
{
    b == 0x20 || b == 0x09 || b == 0x0a || b == 0x0c || b == 0x0d
}

/// The start of the word before the cursor.
pub fn previous_word_boundary(search_input: &str, cursor_position: usize) -> (r: usize)
    ensures
        r == word_before(search_input@, cursor_position as int),
{
    let bytes = search_input.as_bytes();
    let start = if cursor_position <= bytes.len() {
        cursor_position
    } else {
        bytes.len()
    };
    let mut idx: usize = start;
    while idx > 0 && is_ascii_space(bytes[idx - 1])
        invariant
            idx <= bytes@.len(),
            run_start(bytes@, start as int, true) == run_start(bytes@, idx as int, true),
        decreases idx,
    {
        idx -= 1;
    }
    let ghost word = idx as int;
    while idx > 0 && !is_ascii_space(bytes[idx - 1])
        invariant
            idx <= bytes@.len(),
            run_start(bytes@, word, false) == run_start(bytes@, idx as int, false),
        decreases idx,
    {
        idx -= 1;
    }
    idx
}

/// The start of the word behind the cursor.
pub fn next_word_boundary(search_input: &str, cursor_position: usize) -> (r: usize)
    ensures
        r == word_after(search_input@, cursor_position as int),
{
    let bytes = search_input.as_bytes();
    let start = if cursor_position <= bytes.len() {
        cursor_position
    } else {
        bytes.len()
    };
    let mut idx: usize = start;
    while idx < bytes.len() && !is_ascii_space(bytes[idx])
        invariant
            idx <= bytes@.len(),
            run_end(bytes@, start as int, false) == run_end(bytes@, idx as int, false),
        decreases bytes@.len() - idx,
    {
        idx += 1;
    }
    let ghost gap = idx as int;
    while idx < bytes.len() && is_ascii_space(bytes[idx])
        invariant
            idx <= bytes@.len(),
            run_end(bytes@, gap, true) == run_end(bytes@, idx as int, true),
        decreases bytes@.len() - idx,
    {
        idx += 1;
    }
    idx
}

impl LineView {
    /// The word before the cursor, or what is selected, can be deleted.
    pub open spec fn word_deletable(self) -> bool {
        self.selection_fits() && (self.selected() is None && self.cursor > 0 ==> between_chars(
            self.text,
            self.cursor as int,
        ))
    }

    /// The line without what is selected, or else without the word before the cursor.
    pub open spec fn word_deleted(self) -> LineView {
        if self.selected() is Some {
            self.deleted()
        } else if self.cursor == 0 {
            self
        } else {
            let start = word_before(self.text, self.cursor as int);
            LineView {
                text: without(self.text, start, self.cursor as int),
                cursor: start as usize,
                anchor: self.anchor,
            }
        }
    }
}

/// Deletes what is selected, or else the word before the cursor.
pub fn delete_previous_word(line: &mut InputLine)
    requires
        old(line)@.word_deletable(),
    ensures
        final(line)@ == old(line)@.word_deleted(),
{
    if delete_selection_if_any(line) || line.cursor == 0 {
        return;
    }
    let idx = previous_word_boundary(line.text.as_str(), line.cursor);
    proof {
        lemma_between_bound(line.text@, line.cursor as int);
        lemma_word_before(line.text@, line.cursor as int);
    }
    line.text = remove_range(line.text.as_str(), idx, line.cursor);
    line.cursor = idx;
}

/// Copies what is selected to the clipboard.
pub fn copy_selection_to_clipboard(line: &InputLine, clipboard: &mut Option<String>)
    requires
        line@.selection_fits(),
    ensures
        optional(*final(clipboard)) == (if line@.selected() is Some {
            line@.selected_text()
        } else {
            optional(*old(clipboard))
        }),
{
    if let Some((start, end)) = current_selection_range(line.cursor, line.anchor) {
        *clipboard = Some(String::from_str(middle(line.text.as_str(), start, end)));
    }
}

/// Moves what is selected to the clipboard and tells whether anything was.
pub fn cut_selection_to_clipboard(line: &mut InputLine, clipboard: &mut Option<String>) -> (r: bool)
    requires
        old(line)@.selection_fits(),
    ensures
        r == (old(line)@.selected() is Some),
        final(line)@ == old(line)@.deleted(),
        optional(*final(clipboard)) == (if r {
            old(line)@.selected_text()
        } else {
            optional(*old(clipboard))
        }),
{
    if let Some((start, end)) = current_selection_range(line.cursor, line.anchor) {
        *clipboard = Some(String::from_str(middle(line.text.as_str(), start, end)));
        line.text = remove_range(line.text.as_str(), start, end);
        line.cursor = start;
        line.anchor = None;
        return true;
    }
    false
}

/// Turns line ends into blanks.
fn to_one_line(text: &str) -> (r: String)
    ensures
        r@ == one_line(text@),
{
    let chars = to_chars(text);
    let mut r = String::new();
    let mut i: usize = 0;
    while i < chars.len()
        invariant
            i <= chars@.len(),
            r@ == one_line(chars@.take(i as int)),
        decreases chars@.len() - i,
    {
        let c = chars[i];
        r.push(if c == '\n' || c == '\r' { ' ' } else { c });
        i += 1;
        assert(r@ =~= one_line(chars@.take(i as int)));
    }
    assert(chars@.take(i as int) =~= chars@);
    r
}

/// Puts a text in place of what is selected and leaves the cursor `step` further on.
fn insert_at_cursor(line: &mut InputLine, text: &str, step: usize)
    requires
        old(line)@.insertable(),
        step <= size(text@),
    ensures
        final(line)@ == old(line)@.inserted(text@, step as int),
        final(line)@.wf(),
        final(line).cursor == old(line)@.deleted().cursor + step,
{
    let _ = delete_selection_if_any(line);
    proof {
        let l = old(line)@;
        if let Some((start, end)) = l.selected() {
            lemma_parted(l.text, start as int);
            lemma_concat_boundary(before(l.text, start as int), after(l.text, end as int));
        }
        lemma_with_without(line.text@, line.cursor as int, text@);
        lemma_between_bound(line.text@, line.cursor as int);
    }
    let whole = insert_text(line.text.as_str(), line.cursor, text);
    let total = len(whole.as_str());
    assert(line.cursor + step <= total);
    line.text = whole;
    line.cursor = line.cursor + step;
    line.anchor = None;
}

/// Puts the clipboard in place of what is selected and tells whether there was anything to put in.
pub fn paste_from_clipboard(line: &mut InputLine, clipboard: &Option<String>) -> (r: bool)
    requires
        optional(*clipboard) matches Some(text) && text.len() > 0 ==> old(line)@.insertable(),
    ensures
        match optional(*clipboard) {
            Some(text) if text.len() > 0 => r && final(line)@ == old(line)@.inserted(
                one_line(text),
                size(one_line(text)) as int,
            ),
            _ => !r && final(line)@ == old(line)@,
        },
{
    match clipboard {
        None => false,
        Some(text) => {
            if text.as_str().is_empty() {
                return false;
            }
            let pasted = to_one_line(text.as_str());
            let step = len(pasted.as_str());
            insert_at_cursor(line, pasted.as_str(), step);
            true
        },
    }
}

/// Puts a character in place of what is selected. The cursor moves on by one byte.
pub fn type_char(line: &mut InputLine, c: char)
    requires
        old(line)@.insertable(),
    ensures
        final(line)@ == old(line)@.inserted(seq![c], 1),
        final(line)@.wf(),
{
    let mut text = String::new();
    text.push(c);
    assert(text@ =~= seq![c]);
    proof {
        lemma_nonempty(seq![c]);
    }
    insert_at_cursor(line, text.as_str(), 1);
}

proof fn lemma_nonempty(text: Seq<char>)
    requires
        text.len() > 0,
    ensures
        size(text) > 0,
{
    encode_utf8_valid_utf8(text);
}

} // verus!
