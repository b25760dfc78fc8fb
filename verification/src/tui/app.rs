//! What each key does to the state of the interactive search.

use crate::bytes::{
    between_chars, lemma_between_bound, lemma_next_between, lemma_with_without,
    lemma_without_size, len, next_between, remove_char, size, with, without,
};
use crate::paths::{parent, parent_of};
use crate::text::{from_chars, optional, texts, to_chars};
use crate::tui::input::{
    copy_selection_to_clipboard, current_selection_range, cut_selection_to_clipboard,
    delete_previous_word, delete_selection_if_any, lemma_word_after, lemma_word_before,
    next_word_boundary, one_line, paste_from_clipboard, previous_word_boundary, type_char,
    word_after, word_before, InputLine, LineView,
};
use vstd::prelude::*;

verus! {

/// How far a page moves the selection.
pub const RESULT_PAGE_SIZE: usize = 10;

/// Which part of the screen the keys go to.
#[derive(Debug, Clone, Copy, PartialEq, Eq, Structural)]
pub enum Focus {
    Search,
    Results,
}

/// A key of the keyboard.
#[derive(Debug, Clone, Copy, PartialEq, Eq, Structural)]
pub enum KeyCode {
    Enter,
    Backspace,
    Delete,
    Left,
    Right,
    Up,
    Down,
    Home,
    End,
    PageUp,
    PageDown,
    Tab,
    Esc,
    Char(char),
    Other,
}

/// A key and what is held down with it.
#[derive(Debug, Clone, Copy, PartialEq, Eq, Structural)]
pub struct Key {
    pub code: KeyCode,
    pub shift: bool,
    pub control: bool,
    pub alt: bool,
}

/// The state of the interactive search.
pub struct App {
    pub line: InputLine,
    pub clipboard: Option<String>,
    pub results: Vec<String>,
    /// The result that is selected.
    pub selected: Option<usize>,
    pub focus: Focus,
    pub error_message: Option<String>,
    /// The editor to try first.
    pub preferred_editor: Option<String>,
}

/// What is to be done outside after a key or a reply.
pub enum Effect {
    Idle,
    Quit,
    /// Search for a term and hand the results back.
    Search { term: String, entered: bool },
    /// Open a path and tell whether that worked.
    Open { path: String, clears: bool },
    /// Open a path with an editor and tell whether that worked. The other editors are those to
    /// try after it.
    Edit { path: String, editor: String, others: Vec<String> },
    /// Open a directory.
    OpenDirectory { path: String },
}

/// The state as texts.
#[verifier::ext_equal]
pub struct AppView {
    pub line: LineView,
    pub clipboard: Option<Seq<char>>,
    pub results: Seq<Seq<char>>,
    pub selected: Option<usize>,
    pub focus: Focus,
    pub error_message: Option<Seq<char>>,
    pub preferred_editor: Option<Seq<char>>,
}

/// An effect as texts.
#[verifier::ext_equal]
pub enum EffectView {
    Idle,
    Quit,
    Search { term: Seq<char>, entered: bool },
    Open { path: Seq<char>, clears: bool },
    Edit { path: Seq<char>, editor: Seq<char>, others: Seq<Seq<char>> },
    OpenDirectory { path: Seq<char> },
}

impl View for App {
    type V = AppView;

    open spec fn view(&self) -> AppView {
        AppView {
            line: self.line@,
            clipboard: optional(self.clipboard),
            results: texts(self.results@),
            selected: self.selected,
            focus: self.focus,
            error_message: optional(self.error_message),
            preferred_editor: optional(self.preferred_editor),
        }
    }
}

impl View for Effect {
    type V = EffectView;

    open spec fn view(&self) -> EffectView {
        match *self {
            Effect::Idle => EffectView::Idle,
            Effect::Quit => EffectView::Quit,
            Effect::Search { term, entered } => EffectView::Search { term: term@, entered },
            Effect::Open { path, clears } => EffectView::Open { path: path@, clears },
            Effect::Edit { path, editor, others } => EffectView::Edit {
                path: path@,
                editor: editor@,
                others: texts(others@),
            },
            Effect::OpenDirectory { path } => EffectView::OpenDirectory { path: path@ },
        }
    }
}

/// The editors to try, in order.
pub open spec fn editors_to_try(preferred: Option<Seq<char>>) -> Seq<Seq<char>> {
    let known = seq!["nvim"@, "vim"@, "vi"@];
    match preferred {
        Some(editor) => seq![editor] + known,
        None => known,
    }
}

/// Trying the first editor of a list; nothing if there is none.
pub open spec fn try_first(path: Seq<char>, editors: Seq<Seq<char>>) -> EffectView {
    if editors.len() > 0 {
        EffectView::Edit { path, editor: editors[0], others: editors.drop_first() }
    } else {
        EffectView::Idle
    }
}

/// The text that a search starts with.
pub open spec fn initial_text(initial: Option<Seq<char>>) -> Seq<char> {
    match initial {
        Some(term) => term,
        None => seq![],
    }
}

/// A state and what is to be done.
pub type Step = (AppView, EffectView);

impl LineView {
    /// The line with the cursor elsewhere; with shift the selection reaches there.
    pub open spec fn moved(self, target: int, shift: bool) -> LineView {
        LineView {
            text: self.text,
            cursor: target as usize,
            anchor: if !shift {
                None
            } else if self.anchor is Some {
                self.anchor
            } else {
                Some(self.cursor)
            },
        }
    }

    /// Where Left goes: a word or a byte back.
    pub open spec fn left(self, word: bool) -> int {
        if word {
            word_before(self.text, self.cursor as int)
        } else if self.cursor > 0 {
            self.cursor - 1
        } else {
            0
        }
    }

    /// Where Right goes: a word or a byte on.
    pub open spec fn right(self, word: bool) -> int {
        if word {
            word_after(self.text, self.cursor as int)
        } else if self.cursor < size(self.text) {
            self.cursor + 1
        } else {
            size(self.text) as int
        }
    }

    /// The line without what is selected, or else without the character a byte before the cursor.
    pub open spec fn backspaced(self) -> LineView {
        if self.selected() is Some {
            self.deleted()
        } else if self.cursor > 0 {
            LineView {
                text: without(
                    self.text,
                    self.cursor - 1,
                    next_between(self.text, self.cursor - 1),
                ),
                cursor: (self.cursor - 1) as usize,
                anchor: None,
            }
        } else {
            self
        }
    }

    /// The line without what is selected, or else without the character at the cursor.
    pub open spec fn char_deleted(self) -> LineView {
        if self.selected() is Some {
            self.deleted()
        } else if self.cursor < size(self.text) {
            LineView {
                text: without(
                    self.text,
                    self.cursor as int,
                    next_between(self.text, self.cursor as int),
                ),
                cursor: self.cursor,
                anchor: None,
            }
        } else {
            self
        }
    }
}

impl AppView {
    /// The cursor lies within the text and the selection within the results.
    pub open spec fn wf(self) -> bool {
        &&& self.line.wf()
        &&& self.selected matches Some(i) ==> i < self.results.len()
    }

    /// The state with another line.
    pub open spec fn with_line(self, line: LineView) -> AppView {
        AppView { line, ..self }
    }

    /// The state with another line, to be searched for.
    pub open spec fn edited(self, line: LineView) -> Step {
        (self.with_line(line), EffectView::Search { term: line.text, entered: false })
    }

    /// The state without a selection in the line.
    pub open spec fn unanchored(self) -> AppView {
        self.with_line(LineView { anchor: None, ..self.line })
    }

    /// What a character with Control does to the line: `c` copies, `x` cuts, `v` pastes.
    pub open spec fn controlled(self, c: char) -> Step {
        if c == 'c' || c == 'C' {
            (
                AppView {
                    clipboard: if self.line.selected() is Some {
                        self.line.selected_text()
                    } else {
                        self.clipboard
                    },
                    ..self
                },
                EffectView::Idle,
            )
        } else if (c == 'x' || c == 'X') && self.line.selected() is Some {
            AppView { clipboard: self.line.selected_text(), ..self }.edited(self.line.deleted())
        } else if (c == 'v' || c == 'V') && self.pastes() {
            let text = one_line(self.clipboard->0);
            self.edited(self.line.inserted(text, size(text) as int))
        } else {
            (self, EffectView::Idle)
        }
    }

    /// There is something to paste.
    pub open spec fn pastes(self) -> bool {
        self.clipboard is Some && self.clipboard->0.len() > 0
    }

    /// What a key does while the keys go to the line.
    pub open spec fn search_key(self, key: Key) -> Step {
        let line = self.line;
        match key.code {
            KeyCode::Enter => if line.text.len() > 0 {
                (self, EffectView::Search { term: line.text, entered: true })
            } else {
                (self, EffectView::Idle)
            },
            KeyCode::Down => if self.results.len() > 0 {
                (
                    AppView {
                        focus: Focus::Results,
                        selected: Some(0),
                        ..self.unanchored()
                    },
                    EffectView::Idle,
                )
            } else {
                (self, EffectView::Idle)
            },
            KeyCode::Backspace => if key.alt {
                if line.word_deleted().text != line.text {
                    self.edited(line.word_deleted())
                } else {
                    (self.with_line(line.word_deleted()), EffectView::Idle)
                }
            } else if line.selected() is Some || line.cursor > 0 {
                self.edited(line.backspaced())
            } else {
                (self, EffectView::Idle)
            },
            KeyCode::Delete => if line.selected() is Some || line.cursor < size(line.text) {
                self.edited(line.char_deleted())
            } else {
                (self, EffectView::Idle)
            },
            KeyCode::Left => (
                self.with_line(line.moved(line.left(key.control), key.shift)),
                EffectView::Idle,
            ),
            KeyCode::Right => (
                self.with_line(line.moved(line.right(key.control), key.shift)),
                EffectView::Idle,
            ),
            KeyCode::Home => (self.with_line(line.moved(0, key.shift)), EffectView::Idle),
            KeyCode::End => (
                self.with_line(line.moved(size(line.text) as int, key.shift)),
                EffectView::Idle,
            ),
            KeyCode::Esc => (self, EffectView::Quit),
            KeyCode::Tab => if self.results.len() > 0 {
                (
                    AppView {
                        focus: Focus::Results,
                        selected: if self.selected is None {
                            Some(0)
                        } else {
                            self.selected
                        },
                        ..self
                    },
                    EffectView::Idle,
                )
            } else {
                (self, EffectView::Idle)
            },
            KeyCode::Char(c) => if key.control {
                self.controlled(c)
            } else {
                self.edited(line.inserted(seq![c], 1))
            },
            _ => (self, EffectView::Idle),
        }
    }

    /// The state with another result selected, if there are results.
    pub open spec fn selecting(self, i: int) -> Step {
        if self.results.len() > 0 {
            (AppView { selected: Some(i as usize), ..self }, EffectView::Idle)
        } else {
            (self, EffectView::Idle)
        }
    }

    /// The path that is selected.
    pub open spec fn path(self) -> Option<Seq<char>> {
        match self.selected {
            Some(i) if i < self.results.len() => Some(self.results[i as int]),
            _ => None,
        }
    }

    /// The position of the selection; the first result if there is none.
    pub open spec fn place(self) -> int {
        match self.selected {
            Some(i) => i as int,
            None => 0,
        }
    }

    /// What a key does while the keys go to the results.
    pub open spec fn results_key(self, key: Key) -> Step {
        let n = self.results.len();
        match key.code {
            KeyCode::Enter => match self.path() {
                Some(path) => (self, EffectView::Open { path, clears: false }),
                None => (self, EffectView::Idle),
            },
            KeyCode::Char('o') => match self.path() {
                Some(path) => (self, EffectView::Open { path, clears: true }),
                None => (self, EffectView::Idle),
            },
            KeyCode::Char('e') => match self.path() {
                Some(path) => (self, try_first(path, editors_to_try(self.preferred_editor))),
                None => (self, EffectView::Idle),
            },
            KeyCode::Char('v') => match self.path() {
                Some(path) => (self, try_first(path, editors_to_try(Some("vim"@)))),
                None => (self, EffectView::Idle),
            },
            KeyCode::Char('d') => match self.path() {
                Some(path) => match parent_of(path) {
                    Some(dir) => (self, EffectView::OpenDirectory { path: dir }),
                    None => (self, EffectView::Idle),
                },
                None => (self, EffectView::Idle),
            },
            KeyCode::Down => self.selecting(
                if self.selected is None || self.place() + 1 == n {
                    0
                } else {
                    self.place() + 1
                },
            ),
            KeyCode::Up => if n > 0 && self.selected == Some(0usize) {
                AppView { focus: Focus::Search, ..self.unanchored() }.selecting(0)
            } else {
                self.selecting(
                    if self.selected is None {
                        0
                    } else {
                        self.place() - 1
                    },
                )
            },
            KeyCode::PageDown => self.selecting(
                if self.place() + RESULT_PAGE_SIZE < n - 1 {
                    self.place() + RESULT_PAGE_SIZE
                } else {
                    n - 1
                },
            ),
            KeyCode::PageUp => self.selecting(
                if self.place() >= RESULT_PAGE_SIZE {
                    self.place() - RESULT_PAGE_SIZE
                } else {
                    0
                },
            ),
            KeyCode::Home => self.selecting(0),
            KeyCode::End => self.selecting(n - 1),
            KeyCode::Tab => (
                AppView { focus: Focus::Search, ..self.unanchored() },
                EffectView::Idle,
            ),
            KeyCode::Esc => (self, EffectView::Quit),
            _ => (self, EffectView::Idle),
        }
    }

    /// What a key does.
    pub open spec fn key(self, key: Key) -> Step {
        match self.focus {
            Focus::Search => self.search_key(key),
            Focus::Results => self.results_key(key),
        }
    }

    /// A key does not part a character: what it deletes or copies begins and ends between
    /// characters, and what it puts in stands between them.
    pub open spec fn takes(self, key: Key) -> bool {
        let line = self.line;
        self.focus == Focus::Search ==> match key.code {
            KeyCode::Backspace => if key.alt {
                line.word_deletable()
            } else {
                line.selection_fits() && (line.selected() is None && line.cursor > 0
                    ==> between_chars(line.text, line.cursor - 1))
            },
            KeyCode::Delete => line.selection_fits() && (line.selected() is None && line.cursor
                < size(line.text) ==> between_chars(line.text, line.cursor as int)),
            KeyCode::Char(c) => if !key.control {
                line.insertable()
            } else if c == 'c' || c == 'C' || c == 'x' || c == 'X' {
                line.selection_fits()
            } else if c == 'v' || c == 'V' {
                self.pastes() ==> line.insertable()
            } else {
                true
            },
            _ => true,
        }
    }

    /// The state once a search is answered; a failed search found nothing.
    pub open spec fn searched(self, found: Option<Seq<Seq<char>>>, entered: bool) -> Step {
        let results = match found {
            Some(list) => list,
            None => seq![],
        };
        let s = AppView {
            results,
            selected: if results.len() > 0 {
                Some(0)
            } else {
                None
            },
            ..self
        };
        if entered {
            let s = AppView { focus: Focus::Results, ..s.unanchored() };
            (
                s,
                if results.len() > 0 {
                    EffectView::Open { path: results[0], clears: true }
                } else {
                    EffectView::Idle
                },
            )
        } else {
            (AppView { error_message: None, ..s }, EffectView::Idle)
        }
    }

    /// The state once it is known whether a path could be opened.
    pub open spec fn opened(self, path: Seq<char>, clears: bool, worked: bool) -> AppView {
        if !worked {
            AppView { error_message: Some("Error opening file: "@ + path), ..self }
        } else if clears {
            AppView { error_message: None, ..self }
        } else {
            self
        }
    }

    /// The state once it is known whether an editor did its work: if not, the next one is tried,
    /// and if there is none left, that is an error.
    pub open spec fn editor_closed(
        self,
        path: Seq<char>,
        others: Seq<Seq<char>>,
        worked: bool,
    ) -> Step {
        if worked {
            (self, EffectView::Idle)
        } else if others.len() > 0 {
            (self, try_first(path, others))
        } else {
            (
                AppView {
                    error_message: Some(
                        "Error opening file: "@
                            + "Could not open file with any editor: nvim, vim, or vi."@,
                    ),
                    ..self
                },
                EffectView::Idle,
            )
        }
    }
}

/// Deleting what is selected leaves the cursor within the text.
proof fn lemma_deleted_wf(line: LineView)
    requires
        line.wf(),
        line.selection_fits(),
    ensures
        line.deleted().wf(),
{
    if let Some((start, end)) = line.selected() {
        lemma_without_size(line.text, start as int, end as int);
        lemma_between_bound(line.text, end as int);
    }
}

/// Deleting a word leaves the cursor within the text.
proof fn lemma_word_deleted_wf(line: LineView)
    requires
        line.wf(),
        line.word_deletable(),
    ensures
        line.word_deleted().wf(),
{
    lemma_deleted_wf(line);
    if line.selected() is None && line.cursor > 0 {
        lemma_word_before(line.text, line.cursor as int);
        lemma_without_size(
            line.text,
            word_before(line.text, line.cursor as int),
            line.cursor as int,
        );
    }
}

/// Putting text in leaves the cursor within the text.
proof fn lemma_inserted_wf(line: LineView, text: Seq<char>)
    requires
        line.wf(),
        line.insertable(),
    ensures
        line.deleted().wf(),
        between_chars(line.deleted().text, line.deleted().cursor as int),
        size(with(line.deleted().text, line.deleted().cursor as int, text)) == size(
            line.deleted().text,
        ) + size(text),
{
    lemma_deleted_wf(line);
    if let Some((start, end)) = line.selected() {
        lemma_without_size(line.text, start as int, end as int);
    }
    lemma_with_without(line.deleted().text, line.deleted().cursor as int, text);
}

/// The editors to try, in order.
pub fn editor_candidates(preferred: &Option<String>) -> (r: Vec<String>)
    ensures
        texts(r@) == editors_to_try(optional(*preferred)),
{
    let mut r: Vec<String> = Vec::new();
    if let Some(editor) = preferred {
        r.push(editor.clone());
    }
    r.push(String::from_str("nvim"));
    r.push(String::from_str("vim"));
    r.push(String::from_str("vi"));
    assert(texts(r@) =~= editors_to_try(optional(*preferred)));
    r
}

/// Asks for the first editor of a list to be tried.
fn ask_for_editor(path: String, editors: Vec<String>) -> (r: Effect)
    ensures
        r@ == try_first(path@, texts(editors@)),
{
    assert(texts(editors@).len() == editors@.len());
    if editors.is_empty() {
        return Effect::Idle;
    }
    let mut others = editors;
    let editor = others.remove(0);
    assert(texts(others@) =~= texts(editors@).drop_first());
    Effect::Edit { path, editor, others }
}

impl App {
    /// Starts with a term to search for, if there is one.
    pub fn new(initial_search: Option<String>, preferred_editor: Option<String>) -> (r: (Self, Effect))
        ensures
            r.0@ == (AppView {
                line: LineView {
                    text: initial_text(optional(initial_search)),
                    cursor: size(initial_text(optional(initial_search))) as usize,
                    anchor: None,
                },
                clipboard: None,
                results: seq![],
                selected: None,
                focus: Focus::Search,
                error_message: None,
                preferred_editor: optional(preferred_editor),
            }),
            r.0@.wf(),
            r.1@ == (match optional(initial_search) {
                Some(term) => EffectView::Search { term, entered: false },
                None => EffectView::Idle,
            }),
    {
        let (text, effect) = match initial_search {
            Some(term) => (term.clone(), Effect::Search { term, entered: false }),
            None => (String::new(), Effect::Idle),
        };
        assert(text@ =~= initial_text(optional(initial_search)));
        let cursor = len(text.as_str());
        let app = App {
            line: InputLine { text, cursor, anchor: None },
            clipboard: None,
            results: Vec::new(),
            selected: None,
            focus: Focus::Search,
            error_message: None,
            preferred_editor,
        };
        assert(app@.results =~= seq![]);
        (app, effect)
    }

    /// Asks for a search after an edit.
    fn search_again(&self) -> (r: Effect)
        ensures
            r@ == (EffectView::Search { term: self.line.text@, entered: false }),
    {
        Effect::Search { term: self.line.text.clone(), entered: false }
    }

    /// Moves the cursor; with shift the selection reaches there.
    fn move_cursor(&mut self, target: usize, shift: bool)
        ensures
            final(self)@ == old(self)@.with_line(old(self)@.line.moved(target as int, shift)),
    {
        if !shift {
            self.line.anchor = None;
        } else if self.line.anchor.is_none() {
            self.line.anchor = Some(self.line.cursor);
        }
        self.line.cursor = target;
    }

    /// Edits the line by Backspace.
    fn backspace(&mut self, word: bool) -> (r: Effect)
        requires
            old(self)@.wf(),
            old(self)@.focus == Focus::Search,
            old(self)@.takes(
                Key { code: KeyCode::Backspace, shift: false, control: false, alt: word },
            ),
        ensures
            (final(self)@, r@) == old(self)@.search_key(
                Key { code: KeyCode::Backspace, shift: false, control: false, alt: word },
            ),
            final(self)@.wf(),
    {
        proof {
            lemma_deleted_wf(self.line@);
            if word {
                lemma_word_deleted_wf(self.line@);
            }
        }
        if word {
            let previous = self.line.text.clone();
            delete_previous_word(&mut self.line);
            if previous == self.line.text {
                Effect::Idle
            } else {
                self.search_again()
            }
        } else if delete_selection_if_any(&mut self.line) {
            self.search_again()
        } else if self.line.cursor > 0 {
            proof {
                lemma_next_between(self.line.text@, self.line.cursor - 1);
                lemma_without_size(
                    self.line.text@,
                    self.line.cursor - 1,
                    next_between(self.line.text@, self.line.cursor - 1),
                );
            }
            self.line.text = remove_char(self.line.text.as_str(), self.line.cursor - 1);
            self.line.cursor = self.line.cursor - 1;
            self.line.anchor = None;
            self.search_again()
        } else {
            Effect::Idle
        }
    }

    /// Edits the line by Delete.
    fn delete(&mut self) -> (r: Effect)
        requires
            old(self)@.wf(),
            old(self)@.focus == Focus::Search,
            old(self)@.takes(
                Key { code: KeyCode::Delete, shift: false, control: false, alt: false },
            ),
        ensures
            (final(self)@, r@) == old(self)@.search_key(
                Key { code: KeyCode::Delete, shift: false, control: false, alt: false },
            ),
            final(self)@.wf(),
    {
        proof {
            lemma_deleted_wf(self.line@);
        }
        if delete_selection_if_any(&mut self.line) {
            self.search_again()
        } else if self.line.cursor < len(self.line.text.as_str()) {
            proof {
                lemma_next_between(self.line.text@, self.line.cursor as int);
                lemma_without_size(
                    self.line.text@,
                    self.line.cursor as int,
                    next_between(self.line.text@, self.line.cursor as int),
                );
            }
            self.line.text = remove_char(self.line.text.as_str(), self.line.cursor);
            self.line.anchor = None;
            self.search_again()
        } else {
            Effect::Idle
        }
    }

    /// Copies, cuts or pastes.
    fn control_char(&mut self, c: char) -> (r: Effect)
        requires
            old(self)@.wf(),
            old(self)@.focus == Focus::Search,
            old(self)@.takes(
                Key { code: KeyCode::Char(c), shift: false, control: true, alt: false },
            ),
        ensures
            (final(self)@, r@) == old(self)@.controlled(c),
            final(self)@.wf(),
    {
        if c == 'c' || c == 'C' {
            copy_selection_to_clipboard(&self.line, &mut self.clipboard);
            Effect::Idle
        } else if c == 'x' || c == 'X' {
            proof {
                lemma_deleted_wf(self.line@);
            }
            if cut_selection_to_clipboard(&mut self.line, &mut self.clipboard) {
                self.search_again()
            } else {
                Effect::Idle
            }
        } else if c == 'v' || c == 'V' {
            proof {
                if self@.pastes() {
                    lemma_inserted_wf(self.line@, one_line(self@.clipboard->0));
                }
            }
            if paste_from_clipboard(&mut self.line, &self.clipboard) {
                self.search_again()
            } else {
                Effect::Idle
            }
        } else {
            Effect::Idle
        }
    }

    /// Handles a key that goes to the line.
    fn search_key(&mut self, key: Key) -> (r: Effect)
        requires
            old(self)@.wf(),
            old(self)@.focus == Focus::Search,
            old(self)@.takes(key),
        ensures
            (final(self)@, r@) == old(self)@.search_key(key),
            final(self)@.wf(),
    {
        assert(texts(self.results@).len() == self.results@.len());
        match key.code {
            KeyCode::Enter => {
                if !self.line.text.as_str().is_empty() {
                    Effect::Search { term: self.line.text.clone(), entered: true }
                } else {
                    Effect::Idle
                }
            },
            KeyCode::Down => {
                if !self.results.is_empty() {
                    self.focus = Focus::Results;
                    self.selected = Some(0);
                    self.line.anchor = None;
                }
                Effect::Idle
            },
            KeyCode::Backspace => self.backspace(key.alt),
            KeyCode::Delete => self.delete(),
            KeyCode::Left => {
                proof {
                    lemma_word_before(self.line.text@, self.line.cursor as int);
                }
                let target = if key.control {
                    previous_word_boundary(self.line.text.as_str(), self.line.cursor)
                } else if self.line.cursor > 0 {
                    self.line.cursor - 1
                } else {
                    0
                };
                self.move_cursor(target, key.shift);
                Effect::Idle
            },
            KeyCode::Right => {
                proof {
                    lemma_word_after(self.line.text@, self.line.cursor as int);
                }
                let end = len(self.line.text.as_str());
                let target = if key.control {
                    next_word_boundary(self.line.text.as_str(), self.line.cursor)
                } else if self.line.cursor < end {
                    self.line.cursor + 1
                } else {
                    end
                };
                self.move_cursor(target, key.shift);
                Effect::Idle
            },
            KeyCode::Home => {
                self.move_cursor(0, key.shift);
                Effect::Idle
            },
            KeyCode::End => {
                let end = len(self.line.text.as_str());
                self.move_cursor(end, key.shift);
                Effect::Idle
            },
            KeyCode::Esc => Effect::Quit,
            KeyCode::Tab => {
                if !self.results.is_empty() {
                    self.focus = Focus::Results;
                    if self.selected.is_none() {
                        self.selected = Some(0);
                    }
                }
                Effect::Idle
            },
            KeyCode::Char(c) => {
                if key.control {
                    self.control_char(c)
                } else {
                    type_char(&mut self.line, c);
                    self.search_again()
                }
            },
            _ => Effect::Idle,
        }
    }

    /// The path that is selected.
    fn selected_path(&self) -> (r: Option<String>)
        ensures
            optional(r) == self@.path(),
    {
        match self.selected {
            Some(i) => {
                if i < self.results.len() {
                    assert(texts(self.results@)[i as int] == self.results@[i as int]@);
                    Some(self.results[i].clone())
                } else {
                    None
                }
            },
            None => None,
        }
    }

    /// Handles a key that goes to the results.
    fn results_key(&mut self, key: Key) -> (r: Effect)
        requires
            old(self)@.wf(),
            old(self)@.focus == Focus::Results,
        ensures
            (final(self)@, r@) == old(self)@.results_key(key),
            final(self)@.wf(),
    {
        assert(texts(self.results@).len() == self.results@.len());
        let n = self.results.len();
        match key.code {
            KeyCode::Enter => match self.selected_path() {
                Some(path) => Effect::Open { path, clears: false },
                None => Effect::Idle,
            },
            KeyCode::Char('o') => match self.selected_path() {
                Some(path) => Effect::Open { path, clears: true },
                None => Effect::Idle,
            },
            KeyCode::Char('e') => match self.selected_path() {
                Some(path) => ask_for_editor(path, editor_candidates(&self.preferred_editor)),
                None => Effect::Idle,
            },
            KeyCode::Char('v') => match self.selected_path() {
                Some(path) => ask_for_editor(
                    path,
                    editor_candidates(&Some(String::from_str("vim"))),
                ),
                None => Effect::Idle,
            },
            KeyCode::Char('d') => match self.selected_path() {
                Some(path) => match parent(&to_chars(path.as_str())) {
                    Some(dir) => Effect::OpenDirectory { path: from_chars(&dir) },
                    None => Effect::Idle,
                },
                None => Effect::Idle,
            },
            KeyCode::Down => {
                if n > 0 {
                    self.selected = Some(
                        match self.selected {
                            Some(i) => if i == n - 1 {
                                0
                            } else {
                                i + 1
                            },
                            None => 0,
                        },
                    );
                }
                Effect::Idle
            },
            KeyCode::Up => {
                if n > 0 {
                    match self.selected {
                        Some(i) => {
                            if i == 0 {
                                self.focus = Focus::Search;
                                self.line.anchor = None;
                            } else {
                                self.selected = Some(i - 1);
                            }
                        },
                        None => {
                            self.selected = Some(0);
                        },
                    }
                }
                Effect::Idle
            },
            KeyCode::PageDown => {
                if n > 0 {
                    let current = self.selected.unwrap_or(0);
                    self.selected = Some(
                        if n - 1 - current > RESULT_PAGE_SIZE {
                            current + RESULT_PAGE_SIZE
                        } else {
                            n - 1
                        },
                    );
                }
                Effect::Idle
            },
            KeyCode::PageUp => {
                if n > 0 {
                    let current = self.selected.unwrap_or(0);
                    self.selected = Some(
                        if current >= RESULT_PAGE_SIZE {
                            current - RESULT_PAGE_SIZE
                        } else {
                            0
                        },
                    );
                }
                Effect::Idle
            },
            KeyCode::Home => {
                if n > 0 {
                    self.selected = Some(0);
                }
                Effect::Idle
            },
            KeyCode::End => {
                if n > 0 {
                    self.selected = Some(n - 1);
                }
                Effect::Idle
            },
            KeyCode::Tab => {
                self.focus = Focus::Search;
                self.line.anchor = None;
                Effect::Idle
            },
            KeyCode::Esc => Effect::Quit,
            _ => Effect::Idle,
        }
    }

    /// Handles a key.
    pub fn handle_key(&mut self, key: Key) -> (r: Effect)
        requires
            old(self)@.wf(),
            old(self)@.takes(key),
        ensures
            (final(self)@, r@) == old(self)@.key(key),
            final(self)@.wf(),
    {
        match self.focus {
            Focus::Search => self.search_key(key),
            Focus::Results => self.results_key(key),
        }
    }

    /// Tells whether what is selected begins and ends between characters.
    fn has_fitting_selection(&self) -> (r: bool)
        ensures
            r == self@.line.selection_fits(),
    {
        match current_selection_range(self.line.cursor, self.line.anchor) {
            Some((start, end)) => self.line.text.as_str().is_char_boundary(start)
                && self.line.text.as_str().is_char_boundary(end),
            None => true,
        }
    }

    /// Tells whether text can be put in once what is selected is gone.
    fn is_insertable(&self) -> (r: bool)
        ensures
            r == self@.line.insertable(),
    {
        self.has_fitting_selection() && (current_selection_range(
            self.line.cursor,
            self.line.anchor,
        ).is_some() || self.line.text.as_str().is_char_boundary(self.line.cursor))
    }

    /// Tells whether a key can be handled without parting a character.
    pub fn can_handle(&self, key: Key) -> (r: bool)
        requires
            self@.wf(),
        ensures
            r == self@.takes(key),
    {
        let text = self.line.text.as_str();
        let cursor = self.line.cursor;
        let nothing_selected = current_selection_range(cursor, self.line.anchor).is_none();
        match self.focus {
            Focus::Results => true,
            Focus::Search => match key.code {
                KeyCode::Backspace => {
                    self.has_fitting_selection() && (!nothing_selected || cursor == 0
                        || text.is_char_boundary(
                        if key.alt {
                            cursor
                        } else {
                            cursor - 1
                        },
                    ))
                },
                KeyCode::Delete => {
                    self.has_fitting_selection() && (!nothing_selected || cursor >= len(text)
                        || text.is_char_boundary(cursor))
                },
                KeyCode::Char(c) => {
                    if !key.control {
                        self.is_insertable()
                    } else if c == 'c' || c == 'C' || c == 'x' || c == 'X' {
                        self.has_fitting_selection()
                    } else if c == 'v' || c == 'V' {
                        match &self.clipboard {
                            Some(pasted) => pasted.as_str().is_empty() || self.is_insertable(),
                            None => true,
                        }
                    } else {
                        true
                    }
                },
                _ => true,
            },
        }
    }

    /// Takes the answer to a search; a failed search found nothing.
    pub fn searched(&mut self, found: Option<Vec<String>>, entered: bool) -> (r: Effect)
        requires
            old(self)@.wf(),
        ensures
            (final(self)@, r@) == old(self)@.searched(
                match found {
                    Some(list) => Some(texts(list@)),
                    None => None,
                },
                entered,
            ),
            final(self)@.wf(),
    {
        let list = match found {
            Some(list) => list,
            None => Vec::new(),
        };
        assert(texts(list@).len() == list@.len());
        assert(found is None ==> texts(list@) =~= seq![]);
        self.selected = if list.is_empty() {
            None
        } else {
            Some(0)
        };
        self.results = list;
        if entered {
            self.focus = Focus::Results;
            self.line.anchor = None;
            if self.results.is_empty() {
                Effect::Idle
            } else {
                Effect::Open { path: self.results[0].clone(), clears: true }
            }
        } else {
            self.error_message = None;
            Effect::Idle
        }
    }

    /// Learns whether a path could be opened.
    pub fn opened(&mut self, path: &str, clears: bool, worked: bool)
        requires
            old(self)@.wf(),
        ensures
            final(self)@ == old(self)@.opened(path@, clears, worked),
            final(self)@.wf(),
    {
        if !worked {
            self.error_message = Some(String::from_str("Error opening file: ").concat(path));
        } else if clears {
            self.error_message = None;
        }
    }

    /// Learns whether an editor did its work, and asks for the next one if not.
    pub fn editor_closed(&mut self, path: String, others: Vec<String>, worked: bool) -> (r: Effect)
        requires
            old(self)@.wf(),
        ensures
            (final(self)@, r@) == old(self)@.editor_closed(path@, texts(others@), worked),
            final(self)@.wf(),
    {
        assert(texts(others@).len() == others@.len());
        if worked {
            Effect::Idle
        } else if !others.is_empty() {
            ask_for_editor(path, others)
        } else {
            self.error_message = Some(
                String::from_str("Error opening file: ").concat(
                    "Could not open file with any editor: nvim, vim, or vi.",
                ),
            );
            Effect::Idle
        }
    }
}

} // verus!
