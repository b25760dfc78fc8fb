//! What every key does, and what every reply to it leads to.

use crate::bytes::{lemma_encode_add, size};
use crate::laws::editing::lemma_char_size;
use crate::laws::offsets::{offsets_count_bytes, the_next_offset_is_behind_a_character};
use crate::paths::parent_of;
use crate::tui::app::{
    editors_to_try, initial_text, AppView, EffectView, Focus, Key, KeyCode,
};
use crate::tui::input::{one_line, word_after, word_before, LineView};
use vstd::prelude::*;

verus! {

/// A line with the cursor between two texts and nothing selected.
pub open spec fn caret(a: Seq<char>, b: Seq<char>) -> LineView {
    LineView { text: a + b, cursor: size(a) as usize, anchor: None }
}

/// A line of two texts with the cursor between them and nothing selected: no selection began, or
/// one began just where the cursor stands.
pub open spec fn is_caret(line: LineView, a: Seq<char>, b: Seq<char>) -> bool {
    &&& line.text == a + b
    &&& size(a + b) <= usize::MAX
    &&& line.cursor == size(a)
    &&& line.anchor is None || line.anchor == Some(line.cursor)
}

/// A line of three texts of which the middle one is selected, from either of its ends.
pub open spec fn is_marked(line: LineView, a: Seq<char>, s: Seq<char>, b: Seq<char>) -> bool {
    &&& s.len() > 0
    &&& line.text == a + s + b
    &&& size(a + s + b) <= usize::MAX
    &&& (line.cursor == size(a + s) && line.anchor == Some(size(a) as usize)) || (line.cursor
        == size(a) && line.anchor == Some(size(a + s) as usize))
}

proof fn lemma_marked(line: LineView, a: Seq<char>, s: Seq<char>, b: Seq<char>)
    requires
        is_marked(line, a, s, b),
    ensures
        line.selected() == Some((size(a) as usize, size(a + s) as usize)),
        line.selected_text() == Some(s),
        line.deleted() == caret(a, b),
{
    offsets_count_bytes(a, s, b);
    lemma_encode_add(a + s, b);
    lemma_text_size(s);
}

proof fn lemma_text_size(s: Seq<char>)
    requires
        s.len() > 0,
    ensures
        size(s) > 0,
{
    lemma_char_size(s[0]);
    lemma_encode_add(seq![s[0]], s.drop_first());
    assert(seq![s[0]] + s.drop_first() =~= s);
}

/// Typing puts a character where the cursor stands, or in place of what is selected; the cursor
/// moves on by one byte; and the new text is searched for.
pub proof fn typing_puts_a_character_in(
    app: AppView,
    key: Key,
    c: char,
    a: Seq<char>,
    s: Seq<char>,
    b: Seq<char>,
)
    requires
        app.focus == Focus::Search,
        key.code == KeyCode::Char(c),
        !key.control,
        is_caret(app.line, a, b) || is_marked(app.line, a, s, b),
        size(a + b) < usize::MAX,
    ensures
        app.key(key) == (
            AppView {
                line: LineView {
                    text: a + seq![c] + b,
                    cursor: (size(a) + 1) as usize,
                    anchor: None,
                },
                ..app
            },
            EffectView::Search { term: a + seq![c] + b, entered: false },
        ),
{
    if is_marked(app.line, a, s, b) {
        lemma_marked(app.line, a, s, b);
    }
    lemma_encode_add(a, b);
    offsets_count_bytes(a, seq![c], b);
}

/// Backspace takes what is selected, or else the character of one byte before the cursor; and the
/// new text is searched for. At the start of the line it does nothing.
pub proof fn backspace_takes_what_is_before(
    app: AppView,
    key: Key,
    c: char,
    a: Seq<char>,
    s: Seq<char>,
    b: Seq<char>,
)
    requires
        app.focus == Focus::Search,
        key.code == KeyCode::Backspace,
        !key.alt,
        size(a + seq![c] + b) <= usize::MAX,
    ensures
        size(seq![c]) == 1 && is_caret(app.line, a + seq![c], b) ==> app.key(key) == (
            AppView { line: caret(a, b), ..app },
            EffectView::Search { term: a + b, entered: false },
        ),
        is_marked(app.line, a, s, b) ==> app.key(key) == (
            AppView { line: caret(a, b), ..app },
            EffectView::Search { term: a + b, entered: false },
        ),
        is_caret(app.line, seq![], b) ==> app.key(key) == (app, EffectView::Idle),
{
    if is_marked(app.line, a, s, b) {
        lemma_marked(app.line, a, s, b);
    }
    offsets_count_bytes(a, seq![c], b);
    lemma_encode_add(a + seq![c], b);
    the_next_offset_is_behind_a_character(a, c, b);
}

/// Delete takes what is selected, or else the character behind the cursor, whatever its size; the
/// cursor stays; and the new text is searched for. At the end of the line it does nothing.
pub proof fn delete_takes_what_is_behind(
    app: AppView,
    key: Key,
    c: char,
    a: Seq<char>,
    s: Seq<char>,
    b: Seq<char>,
)
    requires
        app.focus == Focus::Search,
        key.code == KeyCode::Delete,
        size(a + seq![c] + b) <= usize::MAX,
    ensures
        is_caret(app.line, a, seq![c] + b) ==> app.key(key) == (
            AppView { line: caret(a, b), ..app },
            EffectView::Search { term: a + b, entered: false },
        ),
        is_marked(app.line, a, s, b) ==> app.key(key) == (
            AppView { line: caret(a, b), ..app },
            EffectView::Search { term: a + b, entered: false },
        ),
        is_caret(app.line, a, seq![]) ==> app.key(key) == (app, EffectView::Idle),
{
    if is_marked(app.line, a, s, b) {
        lemma_marked(app.line, a, s, b);
    }
    offsets_count_bytes(a, seq![c], b);
    lemma_encode_add(a + seq![c], b);
    lemma_char_size(c);
    the_next_offset_is_behind_a_character(a, c, b);
    assert(a + (seq![c] + b) =~= a + seq![c] + b);
    assert(a + seq![] =~= a);
}

/// With Alt, Backspace takes what is selected, or else everything from the start of the word
/// before the cursor up to the cursor; and the new text is searched for. At the start of the line
/// it does nothing.
pub proof fn alt_backspace_takes_a_word(
    app: AppView,
    key: Key,
    a: Seq<char>,
    s: Seq<char>,
    b: Seq<char>,
)
    requires
        app.focus == Focus::Search,
        key.code == KeyCode::Backspace,
        key.alt,
        s.len() > 0,
        size(a + s + b) <= usize::MAX,
    ensures
        is_caret(app.line, a + s, b) && word_before(a + s + b, size(a + s) as int) == size(a)
            ==> app.key(key) == (
            AppView { line: LineView { anchor: app.line.anchor, ..caret(a, b) }, ..app },
            EffectView::Search { term: a + b, entered: false },
        ),
        is_marked(app.line, a, s, b) ==> app.key(key) == (
            AppView { line: caret(a, b), ..app },
            EffectView::Search { term: a + b, entered: false },
        ),
        is_caret(app.line, seq![], b) ==> app.key(key) == (app, EffectView::Idle),
{
    if is_marked(app.line, a, s, b) {
        lemma_marked(app.line, a, s, b);
    }
    offsets_count_bytes(a, s, b);
    lemma_encode_add(a + s, b);
    lemma_text_size(s);
    assert(a + b != a + s + b) by {
        assert((a + b).len() < (a + s + b).len());
    }
}

/// Copying takes what is selected to the clipboard and changes nothing else; cutting also takes
/// it out of the line and searches for what is left. Where nothing is selected, neither does
/// anything.
pub proof fn copy_and_cut_take_the_selection(
    app: AppView,
    key: Key,
    c: char,
    a: Seq<char>,
    s: Seq<char>,
    b: Seq<char>,
)
    requires
        app.focus == Focus::Search,
        key.code == KeyCode::Char(c),
        key.control,
    ensures
        is_marked(app.line, a, s, b) && (c == 'c' || c == 'C') ==> app.key(key) == (
            AppView { clipboard: Some(s), ..app },
            EffectView::Idle,
        ),
        is_marked(app.line, a, s, b) && (c == 'x' || c == 'X') ==> app.key(key) == (
            AppView { clipboard: Some(s), line: caret(a, b), ..app },
            EffectView::Search { term: a + b, entered: false },
        ),
        is_caret(app.line, a, b) && (c == 'c' || c == 'C' || c == 'x' || c == 'X') ==> app.key(key)
            == (app, EffectView::Idle),
{
    if is_marked(app.line, a, s, b) {
        lemma_marked(app.line, a, s, b);
    }
}

/// Pasting puts the clipboard, on one line, where the cursor stands, or in place of what is
/// selected; the cursor goes behind it; and the new text is searched for. An empty clipboard
/// changes nothing, and nor does any other letter with Control.
pub proof fn paste_puts_the_clipboard_in(
    app: AppView,
    key: Key,
    c: char,
    a: Seq<char>,
    s: Seq<char>,
    b: Seq<char>,
    text: Seq<char>,
)
    requires
        app.focus == Focus::Search,
        key.code == KeyCode::Char(c),
        key.control,
        is_caret(app.line, a, b) || is_marked(app.line, a, s, b),
        size(a + b) <= usize::MAX,
    ensures
        (c == 'v' || c == 'V') && app.clipboard == Some(text) && text.len() > 0 ==> app.key(key)
            == (
            AppView {
                line: LineView {
                    text: a + one_line(text) + b,
                    cursor: (size(a) + size(one_line(text))) as usize,
                    anchor: None,
                },
                ..app
            },
            EffectView::Search { term: a + one_line(text) + b, entered: false },
        ),
        (c == 'v' || c == 'V') && (app.clipboard is None || app.clipboard == Some(
            Seq::<char>::empty(),
        )) ==> app.key(key) == (app, EffectView::Idle),
        c != 'v' && c != 'V' && c != 'x' && c != 'X' && c != 'c' && c != 'C' ==> app.key(key) == (
            app,
            EffectView::Idle,
        ),
{
    if is_marked(app.line, a, s, b) {
        lemma_marked(app.line, a, s, b);
    }
    lemma_encode_add(a, b);
    offsets_count_bytes(a, one_line(text), b);
}

/// Where a key moves the cursor of a line, if it does: a byte or, with Control, a word to the left
/// or to the right, but not beyond the ends; or to one of the ends.
pub open spec fn target(line: LineView, key: Key, to: int) -> bool {
    match key.code {
        KeyCode::Home => to == 0,
        KeyCode::End => to == size(line.text),
        KeyCode::Left => if key.control {
            to == word_before(line.text, line.cursor as int)
        } else {
            0 <= to && (to == line.cursor - 1 || (line.cursor == 0 && to == 0))
        },
        KeyCode::Right => if key.control {
            to == word_after(line.text, line.cursor as int)
        } else {
            to <= size(line.text) && (to == line.cursor + 1 || (line.cursor == size(line.text)
                && to == line.cursor))
        },
        _ => false,
    }
}

/// A key that moves the cursor changes nothing but the cursor and what is selected. With Shift
/// everything between the cursor and where the selection began is selected, and it begins where
/// the cursor stood if it had not begun; without Shift nothing is.
pub proof fn moves_move_the_cursor_alone(app: AppView, key: Key, to: int)
    requires
        app.focus == Focus::Search,
        target(app.line, key, to),
        app.wf(),
    ensures
        app.key(key) == (
            AppView {
                line: LineView {
                    text: app.line.text,
                    cursor: to as usize,
                    anchor: if !key.shift {
                        None
                    } else if app.line.anchor is Some {
                        app.line.anchor
                    } else {
                        Some(app.line.cursor)
                    },
                },
                ..app
            },
            EffectView::Idle,
        ),
{
}

/// In the line, Enter searches for its text to open the best result; Down goes to the first
/// result; Tab goes to the result that is selected, or to the first; and each does nothing where
/// there is no text to search for, or no result to go to. Keys that have no use in the line do
/// nothing.
pub proof fn the_line_leads_to_the_results(app: AppView, key: Key)
    requires
        app.focus == Focus::Search,
    ensures
        key.code == KeyCode::Enter && app.line.text.len() > 0 ==> app.key(key) == (
            app,
            EffectView::Search { term: app.line.text, entered: true },
        ),
        key.code == KeyCode::Enter && app.line.text.len() == 0 ==> app.key(key) == (
            app,
            EffectView::Idle,
        ),
        (key.code == KeyCode::Down || key.code == KeyCode::Tab) && app.results.len() == 0
            ==> app.key(key) == (app, EffectView::Idle),
        key.code == KeyCode::Down && app.results.len() > 0 ==> app.key(key) == (
            AppView {
                focus: Focus::Results,
                selected: Some(0usize),
                line: LineView { anchor: None, ..app.line },
                ..app
            },
            EffectView::Idle,
        ),
        key.code == KeyCode::Tab && app.results.len() > 0 ==> app.key(key) == (
            AppView {
                focus: Focus::Results,
                selected: if app.selected is Some {
                    app.selected
                } else {
                    Some(0usize)
                },
                ..app
            },
            EffectView::Idle,
        ),
        key.code == KeyCode::Up || key.code == KeyCode::PageUp || key.code == KeyCode::PageDown
            || key.code == KeyCode::Other ==> app.key(key) == (app, EffectView::Idle),
{
}

/// Among the results, Enter and `o` open the result that is selected, `e` and `v` edit it, and `d`
/// opens the directory that it lies in; none of them changes anything by itself.
pub proof fn the_selected_result_is_acted_on(app: AppView, key: Key, i: usize)
    requires
        app.focus == Focus::Results,
        app.selected == Some(i),
        i < app.results.len(),
    ensures
        key.code == KeyCode::Enter ==> app.key(key) == (
            app,
            EffectView::Open { path: app.results[i as int], clears: false },
        ),
        key.code == KeyCode::Char('o') ==> app.key(key) == (
            app,
            EffectView::Open { path: app.results[i as int], clears: true },
        ),
        key.code == KeyCode::Char('e') && app.preferred_editor is None ==> app.key(key) == (
            app,
            EffectView::Edit {
                path: app.results[i as int],
                editor: "nvim"@,
                others: seq!["vim"@, "vi"@],
            },
        ),
        key.code == KeyCode::Char('e') && app.preferred_editor is Some ==> app.key(key) == (
            app,
            EffectView::Edit {
                path: app.results[i as int],
                editor: app.preferred_editor->0,
                others: seq!["nvim"@, "vim"@, "vi"@],
            },
        ),
        key.code == KeyCode::Char('v') ==> app.key(key) == (
            app,
            EffectView::Edit {
                path: app.results[i as int],
                editor: "vim"@,
                others: seq!["nvim"@, "vim"@, "vi"@],
            },
        ),
        key.code == KeyCode::Char('d') ==> match parent_of(app.results[i as int]) {
            Some(dir) => app.key(key) == (app, EffectView::OpenDirectory { path: dir }),
            None => app.key(key) == (app, EffectView::Idle),
        },
{
    let known = seq!["nvim"@, "vim"@, "vi"@];
    assert(editors_to_try(None).drop_first() =~= seq!["vim"@, "vi"@]);
    if app.preferred_editor is Some {
        assert(editors_to_try(app.preferred_editor).drop_first() =~= known);
    }
    assert(editors_to_try(Some("vim"@)).drop_first() =~= known);
}

/// Where no result is selected, none is acted on.
pub proof fn without_a_selection_nothing_is_opened(app: AppView, key: Key)
    requires
        app.focus == Focus::Results,
        app.selected is None,
        key.code == KeyCode::Enter || key.code is Char,
    ensures
        app.key(key) == (app, EffectView::Idle),
{
}

/// Letters other than those that act on a result do nothing there, and nor do keys that have no
/// use there.
pub proof fn other_keys_do_nothing_to_results(app: AppView, key: Key)
    requires
        app.focus == Focus::Results,
        key.code matches KeyCode::Char(c) ==> c != 'o' && c != 'e' && c != 'v' && c != 'd',
        key.code is Char || key.code == KeyCode::Left || key.code == KeyCode::Right || key.code
            == KeyCode::Backspace || key.code == KeyCode::Delete || key.code == KeyCode::Other,
    ensures
        app.key(key) == (app, EffectView::Idle),
{
}

/// Where a key moves the selection among `n` results from the result at `i`: one on, and from the
/// last to the first; one back; ten on or back, but not beyond the ends; or to one of the ends.
pub open spec fn next_place(code: KeyCode, i: int, n: int, to: int) -> bool {
    match code {
        KeyCode::Down => to == (i + 1) % n,
        KeyCode::Up => i > 0 && to == i - 1,
        KeyCode::PageDown => to <= n - 1 && (to == i + 10 || (to == n - 1 && i + 10 > n - 1)),
        KeyCode::PageUp => 0 <= to && (to == i - 10 || (to == 0 && i < 10)),
        KeyCode::Home => to == 0,
        KeyCode::End => to == n - 1,
        _ => false,
    }
}

/// A key that moves among the results selects another one and changes nothing else.
pub proof fn moves_select_a_result_alone(app: AppView, key: Key, i: usize, to: int)
    requires
        app.focus == Focus::Results,
        app.selected == Some(i),
        i < app.results.len(),
        next_place(key.code, i as int, app.results.len() as int, to),
    ensures
        app.key(key) == (AppView { selected: Some(to as usize), ..app }, EffectView::Idle),
{
    let n = app.results.len() as int;
    if i + 1 < n {
        assert((i + 1) % n == i + 1) by (nonlinear_arith)
            requires
                0 <= i + 1 < n,
        ;
    } else {
        assert(n % n == 0) by (nonlinear_arith)
            requires
                n > 0,
        ;
    }
}

/// Up from the first result, and Tab from anywhere, go back to the line; the text stays as it is
/// and nothing in it is selected any more.
pub proof fn the_results_lead_back_to_the_line(app: AppView, key: Key)
    requires
        app.focus == Focus::Results,
    ensures
        key.code == KeyCode::Tab || (key.code == KeyCode::Up && app.selected == Some(0usize)
            && app.results.len() > 0) ==> app.key(key) == (
            AppView {
                focus: Focus::Search,
                line: LineView { anchor: None, ..app.line },
                ..app
            },
            EffectView::Idle,
        ),
{
}

/// Where nothing is selected among the results, moving by one selects the first; a page on selects
/// the tenth behind it, or the last; End selects the last. Where there is no result, no move
/// selects anything.
pub proof fn moves_start_at_the_first_result(app: AppView, key: Key)
    requires
        app.focus == Focus::Results,
        app.selected is None,
        app.results.len() <= usize::MAX,
    ensures
        app.results.len() > 0 && (key.code == KeyCode::Down || key.code == KeyCode::Up || key.code
            == KeyCode::Home || key.code == KeyCode::PageUp) ==> app.key(key) == (
            AppView { selected: Some(0usize), ..app },
            EffectView::Idle,
        ),
        app.results.len() > 0 && key.code == KeyCode::End ==> app.key(key) == (
            AppView { selected: Some((app.results.len() - 1) as usize), ..app },
            EffectView::Idle,
        ),
        app.results.len() > 0 && key.code == KeyCode::PageDown ==> app.key(key) == (
            AppView {
                selected: Some(
                    if app.results.len() > 10 {
                        10usize
                    } else {
                        (app.results.len() - 1) as usize
                    },
                ),
                ..app
            },
            EffectView::Idle,
        ),
        app.results.len() == 0 && (key.code == KeyCode::Down || key.code == KeyCode::Up || key.code
            == KeyCode::Home || key.code == KeyCode::End || key.code == KeyCode::PageUp || key.code
            == KeyCode::PageDown) ==> app.key(key) == (app, EffectView::Idle),
{
}

/// What a search found becomes the list of results, in its order, with the first one selected; a
/// search that failed found nothing. The line and the clipboard stay as they are.
pub proof fn found_paths_become_the_results(app: AppView, found: Seq<Seq<char>>)
    ensures
        ({
            let first = if found.len() > 0 {
                Some(0usize)
            } else {
                None
            };
            &&& app.searched(Some(found), false) == (
                AppView { results: found, selected: first, error_message: None, ..app },
                EffectView::Idle,
            )
            &&& app.searched(Some(found), true).0 == (AppView {
                results: found,
                selected: first,
                focus: Focus::Results,
                line: LineView { anchor: None, ..app.line },
                ..app
            })
            &&& app.searched(Some(found), true).1 == (if found.len() > 0 {
                EffectView::Open { path: found[0], clears: true }
            } else {
                EffectView::Idle
            })
        }),
        app.searched(None, false) == app.searched(Some(seq![]), false),
        app.searched(None, true) == app.searched(Some(seq![]), true),
{
}

/// A path that could not be opened is an error that names it; one that could be clears the last
/// error where that was asked for. Nothing else changes.
pub proof fn a_path_that_does_not_open_is_an_error(app: AppView, path: Seq<char>, clears: bool)
    ensures
        app.opened(path, clears, false) == (AppView {
            error_message: Some("Error opening file: "@ + path),
            ..app
        }),
        app.opened(path, true, true) == (AppView { error_message: None, ..app }),
        app.opened(path, false, true) == app,
{
}

/// An editor that does not work is followed by the next one, for the same path; and the last one
/// by an error. One that works is the end of it.
pub proof fn editors_are_tried_in_turn(
    app: AppView,
    path: Seq<char>,
    next: Seq<char>,
    others: Seq<Seq<char>>,
)
    ensures
        app.editor_closed(path, others, true) == (app, EffectView::Idle),
        app.editor_closed(path, seq![next] + others, false) == (
            app,
            EffectView::Edit { path, editor: next, others },
        ),
        app.editor_closed(path, seq![], false) == (
            AppView {
                error_message: Some(
                    "Error opening file: "@
                        + "Could not open file with any editor: nvim, vim, or vi."@,
                ),
                ..app
            },
            EffectView::Idle,
        ),
{
    assert((seq![next] + others).drop_first() =~= others);
}

/// A search starts with the text that was given, if any.
pub proof fn the_search_starts_with_what_was_given(term: Seq<char>)
    ensures
        initial_text(Some(term)) == term,
        initial_text(None) == Seq::<char>::empty(),
{
}

/// A state is sound if its cursor lies within the line and its selection within the results.
pub proof fn a_sound_state_points_within(app: AppView)
    ensures
        app.wf() <==> app.line.cursor <= size(app.line.text) && (app.selected matches Some(i) ==> i
            < app.results.len()),
{
}

/// A line takes every key while its cursor stands between characters, and its selection too, but
/// for Backspace behind a character of several bytes. Among the results every key is taken.
pub proof fn keys_are_taken_between_characters(
    app: AppView,
    key: Key,
    a: Seq<char>,
    s: Seq<char>,
    b: Seq<char>,
)
    requires
        app.focus == Focus::Results || is_caret(app.line, a, b) || is_marked(app.line, a, s, b),
        app.focus == Focus::Search && is_caret(app.line, a, b) && key.code == KeyCode::Backspace
            && !key.alt && a.len() > 0 ==> size(seq![a.last()]) == 1,
        size(a + b) <= usize::MAX,
    ensures
        app.takes(key),
{
    lemma_encode_add(a, b);
    offsets_count_bytes(a, b, seq![]);
    assert(a + b + seq![] =~= a + b);
    if is_marked(app.line, a, s, b) {
        lemma_marked(app.line, a, s, b);
        offsets_count_bytes(a, s, b);
        lemma_encode_add(a + s, b);
    }
    if a.len() > 0 {
        let (head, c) = (a.drop_last(), a.last());
        assert(head + seq![c] =~= a);
        assert(head + seq![c] + b =~= a + b);
        offsets_count_bytes(head, seq![c], b);
    }
}

/// Where the cursor parts a character, nothing can be typed and nothing deleted.
pub proof fn a_parted_character_takes_no_edit(app: AppView, key: Key)
    requires
        app.focus == Focus::Search,
        app.line.selected() is None,
        !crate::bytes::between_chars(app.line.text, app.line.cursor as int),
        (key.code is Char && !key.control) || (key.code == KeyCode::Delete && app.line.cursor
            < size(app.line.text)),
    ensures
        !app.takes(key),
{
}

} // verus!
