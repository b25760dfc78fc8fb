//! What holds of every edit of the search line and of every move among the results.

use crate::bytes::{
    after, before, between_chars, lemma_between_bound, lemma_concat_boundary, lemma_encode_add,
    lemma_next_between, lemma_parted, lemma_parted_twice, lemma_with_without, next_between, part,
    size, with, without,
};
use crate::laws::display::ascii_parts_anywhere;
use crate::tui::app::{AppView, EffectView, Focus, Key, KeyCode};
use crate::tui::input::{lemma_word_after, lemma_word_before, one_line, LineView};
use vstd::prelude::*;
use vstd::utf8::is_ascii_chars;

verus! {

/// Pasting what was cut gives the line back, with the cursor behind it, unless it held a line
/// end: those are pasted as blanks.
pub proof fn cut_and_paste_restore(line: LineView)
    requires
        line.selected() is Some,
        line.selection_fits(),
        one_line(line.selected_text()->0) == line.selected_text()->0,
    ensures
        ({
            let text = line.selected_text()->0;
            line.deleted().inserted(one_line(text), size(one_line(text)) as int) == (LineView {
                text: line.text,
                cursor: (line.selected()->0).1,
                anchor: None,
            })
        }),
{
    let (start, end) = line.selected()->0;
    let text = part(line.text, start as int, end as int);
    let (i, j) = (start as int, end as int);
    lemma_parted_twice(line.text, i, j);
    lemma_parted(line.text, i);
    let head = before(line.text, i);
    let tail = after(line.text, j);
    lemma_concat_boundary(head, tail);
    assert(without(line.text, i, j) == head + tail);
    assert(with(head + tail, i, text) == head + text + tail);
}

/// Pasting what was copied puts it in place of what is selected: the line does not change.
pub proof fn copy_and_paste_keep_the_line(line: LineView)
    requires
        line.selected() is Some,
        line.selection_fits(),
        one_line(line.selected_text()->0) == line.selected_text()->0,
    ensures
        ({
            let text = line.selected_text()->0;
            line.inserted(one_line(text), size(one_line(text)) as int).text == line.text
        }),
{
    cut_and_paste_restore(line);
}

/// Within one character no offset lies between characters.
pub proof fn lemma_whole_char(s: Seq<char>, i: int, c: char)
    requires
        between_chars(s, i),
    ensures
        next_between(with(s, i, seq![c]), i) == i + size(seq![c]),
{
    let w = with(s, i, seq![c]);
    let j = i + size(seq![c]);
    lemma_with_without(s, i, seq![c]);
    lemma_between_bound(s, i);
    lemma_between_bound(w, j);
    lemma_char_size(c);
    let k = next_between(w, i);
    lemma_next_between(w, i);
    if k < j {
        lemma_parted_twice(w, i, k);
        lemma_parted_twice(w, k, j);
        lemma_parted_twice(w, i, j);
        let a = part(w, i, k);
        let b = part(w, k, j);
        lemma_encode_add(a, b);
        assert(vstd::utf8::encode_utf8(a + b) =~= vstd::utf8::encode_utf8(w).subrange(i, j));
        crate::bytes::lemma_encode_injective(a + b, seq![c]);
        if a.len() == 0 {
            assert(a =~= seq![]);
            assert(size(a) == 0);
        }
        if b.len() == 0 {
            assert(b =~= seq![]);
            assert(size(b) == 0);
        }
        assert((a + b).len() == 1);
    }
}

/// A character takes at least one byte.
pub proof fn lemma_char_size(c: char)
    ensures
        size(seq![c]) > 0,
{
    lemma_concat_boundary(seq![], seq![c]);
    assert(seq![] + seq![c] =~= seq![c]);
    vstd::utf8::encode_utf8_valid_utf8(seq![c]);
}

/// Backspace takes back what was typed, whichever character it is.
pub proof fn backspace_undoes_typing(line: LineView, c: char)
    requires
        line.insertable(),
        line.selected() is None,
        line.cursor < usize::MAX,
    ensures
        line.inserted(seq![c], 1).backspaced() == (LineView {
            text: line.text,
            cursor: line.cursor,
            anchor: None,
        }),
{
    lemma_whole_char(line.text, line.cursor as int, c);
    lemma_with_without(line.text, line.cursor as int, seq![c]);
}

/// Typing at the end of the line appends.
pub proof fn typing_at_the_end_appends(line: LineView, c: char)
    requires
        line.selected() is None,
        line.cursor == size(line.text),
    ensures
        line.inserted(seq![c], 1).text == line.text.push(c),
{
    crate::bytes::lemma_ends(line.text);
    lemma_parted(line.text, line.cursor as int);
    lemma_concat_boundary(line.text, seq![]);
    assert(line.text + seq![] =~= line.text);
    assert(before(line.text, line.cursor as int) == line.text);
    assert(after(line.text, line.cursor as int) == Seq::<char>::empty());
    assert(line.text + seq![c] + seq![] =~= line.text.push(c));
}

/// Deleting what is selected takes out exactly that and nothing else.
pub proof fn deleting_takes_the_selection(line: LineView)
    requires
        line.selected() is Some,
        line.selection_fits(),
    ensures
        ({
            let (start, end) = line.selected()->0;
            &&& line.text == before(line.text, start as int) + line.selected_text()->0 + after(
                line.text,
                end as int,
            )
            &&& line.deleted().text == before(line.text, start as int) + after(
                line.text,
                end as int,
            )
            &&& line.deleted().selected() is None
        }),
{
    let (start, end) = line.selected()->0;
    lemma_parted_twice(line.text, start as int, end as int);
}

/// Moves by words stay within the line: a word back never goes on, a word on never goes back.
pub proof fn word_moves_stay_in_the_line(line: LineView)
    requires
        line.wf(),
    ensures
        0 <= line.left(true) <= line.cursor <= line.right(true) <= size(line.text),
        between_chars(line.text, line.left(true)),
{
    lemma_word_before(line.text, line.cursor as int);
    lemma_word_after(line.text, line.cursor as int);
}

/// An ASCII line takes every key, as long as its selection lies within it.
pub proof fn ascii_lines_take_every_key(app: AppView, key: Key)
    requires
        app.wf(),
        is_ascii_chars(app.line.text),
        app.line.anchor matches Some(a) ==> a <= size(app.line.text),
    ensures
        app.takes(key),
{
    let line = app.line;
    ascii_parts_anywhere(line.text, line.cursor as int);
    if line.cursor > 0 {
        ascii_parts_anywhere(line.text, line.cursor - 1);
    }
    if let Some((start, end)) = line.selected() {
        ascii_parts_anywhere(line.text, start as int);
        ascii_parts_anywhere(line.text, end as int);
    }
}

/// A key without anything held down.
pub open spec fn plain(code: KeyCode) -> Key {
    Key { code, shift: false, control: false, alt: false }
}

/// Among the results, Up takes back Down, unless Down went from the last result to the first.
pub proof fn up_undoes_down(app: AppView)
    requires
        app.focus == Focus::Results,
        app.selected matches Some(i) && i + 1 < app.results.len(),
        app.results.len() <= usize::MAX,
    ensures
        app.key(plain(KeyCode::Down)).0.key(plain(KeyCode::Up)).0 == app,
{
    assert(app.key(plain(KeyCode::Down)).0.key(plain(KeyCode::Up)).0 =~= app);
}

/// Down goes from the last result to the first; Up goes from the first result to the line.
pub proof fn the_ends_lead_on(app: AppView)
    requires
        app.focus == Focus::Results,
        app.results.len() > 0,
    ensures
        app.selected matches Some(i) && i + 1 == app.results.len() ==> app.key(
            plain(KeyCode::Down),
        ).0.selected == Some(0usize),
        app.selected == Some(0usize) ==> app.key(plain(KeyCode::Up)).0.focus == Focus::Search,
{
}

/// Tab goes from the line to the results and back again, and neither edits nor searches.
pub proof fn tab_goes_there_and_back(app: AppView)
    requires
        app.focus == Focus::Search,
        app.results.len() > 0,
        app.selected is Some,
    ensures
        app.key(plain(KeyCode::Tab)).0.focus == Focus::Results,
        app.key(plain(KeyCode::Tab)).1 == EffectView::Idle,
        app.key(plain(KeyCode::Tab)).0.key(plain(KeyCode::Tab)).0 == app.unanchored(),
        app.key(plain(KeyCode::Tab)).0.key(plain(KeyCode::Tab)).1 == EffectView::Idle,
{
    assert(app.key(plain(KeyCode::Tab)).0.key(plain(KeyCode::Tab)).0 =~= app.unanchored());
}

/// Esc ends the search from everywhere.
pub proof fn esc_quits(app: AppView, key: Key)
    requires
        key.code == KeyCode::Esc,
    ensures
        app.key(key) == (app, EffectView::Quit),
{
}

/// Keys that go to the results change neither the line's text nor the results.
pub proof fn results_keys_edit_nothing(app: AppView, key: Key)
    requires
        app.focus == Focus::Results,
    ensures
        app.key(key).0.line.text == app.line.text,
        app.key(key).0.line.cursor == app.line.cursor,
        app.key(key).0.results == app.results,
        app.key(key).0.clipboard == app.clipboard,
        !(app.key(key).1 is Search),
{
}

/// Every change of the line's text asks for a search for the new text.
pub proof fn edits_search(app: AppView, key: Key)
    requires
        app.key(key).0.line.text != app.line.text,
    ensures
        app.key(key).1 == (EffectView::Search {
            term: app.key(key).0.line.text,
            entered: false,
        }),
{
}

} // verus!
