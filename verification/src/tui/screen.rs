//! What the interactive search shows.

use crate::numbers::{decimal, write_decimal};
use crate::text::{lower, optional, texts, words};
use crate::tui::app::{App, AppView, Focus};
use crate::tui::color::{named_color, parse_color, Color};
use crate::tui::highlight::{create_highlighted_spans, fit, highlighted_spans, highlights};
use crate::tui::input::current_selection_range;
use crate::tui::span::{create_input_spans, input_spans, shown, Span, SpanView};
use vstd::prelude::*;

verus! {

/// The shortcuts while the keys go to the search line.
pub const SEARCH_SHORTCUTS: &'static str =
    " | Ctrl+C/X/V: Clipboard | Ctrl+Shift+←/→: Select Word | Alt+Backspace: Del Word | Shift+Home/End: Select | Esc: Quit";

/// The shortcuts while the keys go to the results.
pub const RESULTS_SHORTCUTS: &'static str =
    " | Enter/o: Open | e: Edit | d: Dir | PgUp/PgDn/Home/End: Navigate | Tab: Search | Esc: Quit";

/// Everything that is drawn.
pub struct Screen {
    /// The search line.
    pub input: Vec<Span>,
    /// The results, each with the search term highlighted.
    pub results: Vec<Vec<Span>>,
    /// The line below the results.
    pub summary: String,
    /// The line for errors.
    pub error: Option<String>,
    /// The part of the screen that stands out.
    pub focus: Focus,
    /// How far right of the frame the cursor stands, where it is shown.
    pub cursor: Option<u16>,
}

/// Everything that is drawn, as texts.
#[verifier::ext_equal]
pub struct ScreenView {
    pub input: Seq<SpanView>,
    pub results: Seq<Seq<SpanView>>,
    pub summary: Seq<char>,
    pub error: Option<Seq<char>>,
    pub focus: Focus,
    pub cursor: Option<u16>,
}

/// The rows of a list as texts with styles.
pub open spec fn rows_shown(rows: Seq<Vec<Span>>) -> Seq<Seq<SpanView>> {
    rows.map_values(|row: Vec<Span>| shown(row@))
}

impl View for Screen {
    type V = ScreenView;

    open spec fn view(&self) -> ScreenView {
        ScreenView {
            input: shown(self.input@),
            results: rows_shown(self.results@),
            summary: self.summary@,
            error: optional(self.error),
            focus: self.focus,
            cursor: self.cursor,
        }
    }
}

/// The color of a configuration, or dark gray if it names none that is known.
pub open spec fn color_of(name: Option<Seq<char>>) -> Color {
    match name {
        Some(name) => match named_color(lower(name)) {
            Some(color) => color,
            None => Color::DarkGray,
        },
        None => Color::DarkGray,
    }
}

/// A result can be shown: what is highlighted in it begins and ends between characters.
pub open spec fn row_fits(row: Seq<char>, term: Seq<char>) -> bool {
    words(term).len() == 0 || fit(row, highlights(row, term))
}

/// A state can be shown: no selection and no highlight parts a character.
pub open spec fn can_show(app: AppView) -> bool {
    &&& app.line.selection_fits()
    &&& forall|i: int| #![trigger app.results[i]]
        0 <= i < app.results.len() ==> row_fits(app.results[i], app.line.text)
}

/// Which result of how many is selected.
pub open spec fn counts(app: AppView) -> Seq<char> {
    if app.results.len() == 0 {
        "0 items"@
    } else {
        decimal(
            match app.selected {
                Some(i) => (i + 1) as nat,
                None => 0,
            },
        ) + "/"@ + decimal(app.results.len()) + " items"@
    }
}

/// The shortcuts of the part of the screen that the keys go to.
pub open spec fn shortcuts(focus: Focus) -> Seq<char> {
    match focus {
        Focus::Search => SEARCH_SHORTCUTS@,
        Focus::Results => RESULTS_SHORTCUTS@,
    }
}

/// What a state looks like.
pub open spec fn screen_of(app: AppView, color: Color) -> ScreenView {
    ScreenView {
        input: input_spans(app.line.text, app.line.selected()),
        results: app.results.map_values(
            |row: Seq<char>| highlighted_spans(row, app.line.text, color),
        ),
        summary: counts(app) + shortcuts(app.focus),
        error: app.error_message,
        focus: app.focus,
        cursor: match app.focus {
            Focus::Search => Some(((app.line.cursor + 1) % 0x1_0000) as u16),
            Focus::Results => None,
        },
    }
}

/// The color to highlight with: that of a configuration, or dark gray.
pub fn highlight_color(name: &Option<String>) -> (r: Color)
    ensures
        r == color_of(optional(*name)),
{
    match name {
        Some(name) => match parse_color(name.as_str()) {
            Some(color) => color,
            None => Color::DarkGray,
        },
        None => Color::DarkGray,
    }
}

/// Writes the line below the results.
fn summary(app: &App) -> (r: String)
    requires
        app@.wf(),
    ensures
        r@ == counts(app@) + shortcuts(app.focus),
{
    assert(texts(app.results@).len() == app.results@.len());
    let n = app.results.len();
    let counted = if n == 0 {
        String::from_str("0 items")
    } else {
        let place = match app.selected {
            Some(i) => i + 1,
            None => 0,
        };
        write_decimal(place).concat("/").concat(write_decimal(n).as_str()).concat(" items")
    };
    match app.focus {
        Focus::Search => counted.concat(SEARCH_SHORTCUTS),
        Focus::Results => counted.concat(RESULTS_SHORTCUTS),
    }
}

/// Lays a state out, unless a selection or a highlight parts a character.
pub fn ui(app: &App, highlight_color: Color) -> (r: Option<Screen>)
    requires
        app@.wf(),
    ensures
        match r {
            Some(screen) => can_show(app@) && screen@ == screen_of(app@, highlight_color),
            None => !can_show(app@),
        },
{
    let term = app.line.text.as_str();
    let selected = current_selection_range(app.line.cursor, app.line.anchor);
    if let Some((start, end)) = selected {
        if !term.is_char_boundary(start) || !term.is_char_boundary(end) {
            return None;
        }
    }
    let input = create_input_spans(term, selected);
    let mut results: Vec<Vec<Span>> = Vec::new();
    let mut i: usize = 0;
    while i < app.results.len()
        invariant
            i <= app.results@.len(),
            results@.len() == i,
            app.line.text@ == term@,
            forall|k: int| #![trigger app@.results[k]]
                0 <= k < i ==> row_fits(app@.results[k], term@) && shown(results@[k]@)
                    == highlighted_spans(app@.results[k], term@, highlight_color),
        decreases app.results@.len() - i,
    {
        assert(app@.results[i as int] == app.results@[i as int]@);
        match create_highlighted_spans(app.results[i].as_str(), term, highlight_color) {
            Some(spans) => {
                results.push(spans);
            },
            None => {
                assert(!row_fits(app@.results[i as int], app@.line.text));
                return None;
            },
        }
        i += 1;
    }
    assert(rows_shown(results@) =~= screen_of(app@, highlight_color).results) by {
        assert forall|k: int| 0 <= k < results@.len() implies #[trigger] rows_shown(results@)[k]
            == screen_of(app@, highlight_color).results[k] by {
            assert(shown(results@[k]@) == highlighted_spans(
                app@.results[k],
                term@,
                highlight_color,
            ));
        }
    }
    let cursor = match app.focus {
        Focus::Search => {
            let column = (app.line.cursor % 0x1_0000) as u32 + 1;
            Some((column % 0x1_0000) as u16)
        },
        Focus::Results => None,
    };
    let error = match &app.error_message {
        Some(message) => Some(message.clone()),
        None => None,
    };
    Some(Screen { input, results, summary: summary(app), error, focus: app.focus, cursor })
}

} // verus!
