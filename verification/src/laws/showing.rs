//! What holds of everything that is drawn.

use crate::bytes::{between_chars, lemma_encode_add, part, size};
use crate::laws::highlighting::{is_span_of, lemma_all_spans};
use crate::laws::offsets::offsets_count_bytes;
use crate::numbers::{decimal, digit, number};
use crate::text::{lower, words};
use crate::tui::app::{AppView, Focus};
use crate::tui::color::{named_color, Color};
use crate::tui::highlight::{
    end_of, highlighted_spans, highlights, lemma_highlights_ordered, spans_up_to, spans_with,
    Range,
};
use crate::tui::screen::{can_show, color_of, row_fits, screen_of, shortcuts};
use crate::tui::span::{input_spans, SpanStyle, SpanView};
use vstd::prelude::*;

verus! {

/// The texts of the spans of a list that are highlighted, in order.
pub open spec fn lit(spans: Seq<SpanView>) -> Seq<Seq<char>>
    decreases spans.len(),
{
    if spans.len() == 0 {
        seq![]
    } else if spans.last().1 is Highlighted {
        lit(spans.drop_last()).push(spans.last().0)
    } else {
        lit(spans.drop_last())
    }
}

proof fn lemma_lit(spans: Seq<SpanView>, span: SpanView)
    ensures
        lit(spans.push(span)) == (if span.1 is Highlighted {
            lit(spans).push(span.0)
        } else {
            lit(spans)
        }),
{
    assert(spans.push(span).drop_last() =~= spans);
}

proof fn lemma_lit_ranges(text: Seq<char>, list: Seq<Range>, color: Color)
    ensures
        lit(spans_up_to(text, list, color)) == list.map_values(
            |r: Range| part(text, r.0 as int, r.1 as int),
        ),
    decreases list.len(),
{
    let f = |r: Range| part(text, r.0 as int, r.1 as int);
    if list.len() == 0 {
        assert(lit(spans_up_to(text, list, color)) =~= list.map_values(f));
    } else {
        let first = list.drop_last();
        let (start, end) = list.last();
        lemma_lit_ranges(text, first, color);
        let so_far = spans_up_to(text, first, color);
        let gap = (part(text, end_of(first) as int, start as int), SpanStyle::Raw);
        let shown = (part(text, start as int, end as int), SpanStyle::Highlighted(color));
        lemma_lit(so_far, gap);
        lemma_lit(so_far, shown);
        lemma_lit(so_far.push(gap), shown);
        assert(list.map_values(f) =~= first.map_values(f).push(f(list.last())));
    }
}

/// A result shows every range that the query finds in it highlighted, each in one piece and in
/// order, in the color that was asked for; and the rest, where nothing was found, as it is.
pub proof fn every_find_is_shown_highlighted(row: Seq<char>, term: Seq<char>, color: Color)
    requires
        words(term).len() > 0,
        row_fits(row, term),
        size(lower(row)) <= usize::MAX,
    ensures
        lit(highlighted_spans(row, term, color)) == highlights(row, term).map_values(
            |r: Range| part(row, r.0 as int, r.1 as int),
        ),
        forall|i: int| #![trigger highlighted_spans(row, term, color)[i]]
            0 <= i < highlighted_spans(row, term, color).len() ==> is_span_of(
                highlighted_spans(row, term, color)[i],
                row,
                highlights(row, term),
                color,
            ),
{
    let list = highlights(row, term);
    lemma_highlights_ordered(row, term);
    lemma_lit_ranges(row, list, color);
    lemma_all_spans(row, list, color);
    let so_far = spans_up_to(row, list, color);
    if end_of(list) < size(row) {
        lemma_lit(so_far, spans_with(row, list, color).last());
        assert(spans_with(row, list, color) =~= so_far.push(
            spans_with(row, list, color).last(),
        ));
    }
}

/// The line shows what is selected in its own style, and what stands before and behind it as it
/// is; where nothing stands, nothing is shown.
pub proof fn the_selection_is_shown_selected(a: Seq<char>, s: Seq<char>, b: Seq<char>)
    requires
        size(a + s + b) <= usize::MAX,
    ensures
        input_spans(a + s + b, Some((size(a) as usize, size(a + s) as usize))) == (if size(a) > 0 {
            seq![(a, SpanStyle::Raw)]
        } else {
            seq![]
        }) + seq![(s, SpanStyle::Selected)] + (if size(b) > 0 {
            seq![(b, SpanStyle::Raw)]
        } else {
            seq![]
        }),
        input_spans(a, None) == seq![(a, SpanStyle::Raw)],
{
    offsets_count_bytes(a, s, b);
    offsets_count_bytes(a + s, b, seq![]);
    offsets_count_bytes(a, s + b, seq![]);
    lemma_encode_add(a + s, b);
    assert(a + s + b =~= a + (s + b));
}

/// The screen shows the line, every result in its place, the error, and which part the keys go
/// to. The cursor shows in the line while they go there.
pub proof fn the_screen_shows_the_state(app: AppView, color: Color, i: int)
    requires
        0 <= i < app.results.len(),
    ensures
        ({
            let screen = screen_of(app, color);
            &&& screen.input == input_spans(app.line.text, app.line.selected())
            &&& screen.results.len() == app.results.len()
            &&& screen.results[i] == highlighted_spans(app.results[i], app.line.text, color)
            &&& screen.error == app.error_message
            &&& screen.focus == app.focus
            &&& app.focus == Focus::Results ==> screen.cursor is None
            &&& app.focus == Focus::Search && app.line.cursor < 0xffff ==> screen.cursor == Some(
                (app.line.cursor + 1) as u16,
            )
        }),
{
    assert((app.line.cursor + 1) % 0x1_0000 == app.line.cursor + 1 || app.line.cursor >= 0xffff);
}

/// The line below the results says which of how many is selected, counted from one, and what the
/// keys do.
pub proof fn the_summary_counts_from_one(app: AppView, color: Color, i: usize)
    ensures
        app.results.len() == 0 ==> screen_of(app, color).summary == "0 items"@ + shortcuts(
            app.focus,
        ),
        app.results.len() > 0 && app.selected == Some(i) ==> screen_of(app, color).summary
            == decimal((i + 1) as nat) + "/"@ + decimal(app.results.len()) + " items"@ + shortcuts(
            app.focus,
        ),
        app.results.len() > 0 && app.selected is None ==> screen_of(app, color).summary
            == seq!['0'] + "/"@ + decimal(app.results.len()) + " items"@ + shortcuts(app.focus),
        shortcuts(Focus::Search)
            == " | Ctrl+C/X/V: Clipboard | Ctrl+Shift+←/→: Select Word | Alt+Backspace: Del Word | Shift+Home/End: Select | Esc: Quit"@,
        shortcuts(Focus::Results)
            == " | Enter/o: Open | e: Edit | d: Dir | PgUp/PgDn/Home/End: Navigate | Tab: Search | Esc: Quit"@,
{
    assert(decimal(0) =~= seq!['0']) by {
        assert(digit(0) == '0');
    }
}

/// A state can be shown exactly if what is selected in the line, and what is found in the results,
/// begins and ends between characters; where nothing is searched for, every result can be.
pub proof fn states_show_unless_a_character_is_parted(app: AppView)
    ensures
        can_show(app) <==> (app.line.selected() matches Some((start, end)) ==> between_chars(
            app.line.text,
            start as int,
        ) && between_chars(app.line.text, end as int)) && (words(app.line.text).len() > 0
            ==> forall|i: int, j: int|
            #![trigger highlights(app.results[i], app.line.text)[j]]
            0 <= i < app.results.len() && 0 <= j < highlights(
                app.results[i],
                app.line.text,
            ).len() ==> between_chars(
                app.results[i],
                highlights(app.results[i], app.line.text)[j].0 as int,
            ) && between_chars(
                app.results[i],
                highlights(app.results[i], app.line.text)[j].1 as int,
            )),
{
    let term = app.line.text;
    if words(term).len() > 0 {
        assert forall|i: int| #![trigger app.results[i]] 0 <= i < app.results.len() implies (
        row_fits(app.results[i], term) <==> forall|j: int|
            #![trigger highlights(app.results[i], term)[j]]
            0 <= j < highlights(app.results[i], term).len() ==> between_chars(
                app.results[i],
                highlights(app.results[i], term)[j].0 as int,
            ) && between_chars(
                app.results[i],
                highlights(app.results[i], term)[j].1 as int,
            )) by {}
    }
}

/// Numbers are written in decimal: a digit for each power of ten, the highest first.
pub proof fn numbers_are_written_digit_by_digit(n: nat, d: nat)
    requires
        d < 10,
    ensures
        decimal(d) == seq![(48 + d) as char],
        n > 0 ==> decimal(10 * n + d) == decimal(n).push((48 + d) as char),
{
    if n > 0 {
        assert((10 * n + d) / 10 == n);
        assert((10 * n + d) % 10 == d);
    }
}

/// Numbers are read in decimal, digit by digit, with or without a `+` in front; and nothing else
/// is a number.
pub proof fn numbers_are_read_digit_by_digit(s: Seq<char>, c: char)
    ensures
        number(seq![]) is None,
        '0' <= c <= '9' ==> number(seq![c]) == Some((c as nat - 48) as nat),
        '0' <= c <= '9' && s.len() > 0 && s != seq!['+'] ==> (match number(s) {
            Some(n) => number(s.push(c)) == Some((10 * n + (c as nat - 48)) as nat),
            None => number(s.push(c)) is None,
        }),
        !('0' <= c <= '9') && s.len() > 0 ==> number(s.push(c)) is None,
        '0' <= c <= '9' ==> number(seq!['+'].push(c)) == Some((c as nat - 48) as nat),
        number(seq!['+']) is None,
{
    if s.len() == 1 && s[0] == '+' {
        assert(s =~= seq!['+']);
    }
    lemma_read(s, c);
    lemma_read(seq![], c);
    lemma_read(seq!['+'], c);
    assert(seq![].push(c) =~= seq![c]);
    let plus = seq!['+'];
    assert(crate::numbers::unsigned(plus) =~= seq![]);
    assert(crate::numbers::value_of(seq![]) == 0);
    if c == '+' {
        assert(crate::numbers::unsigned(seq![c]) =~= seq![]);
    }
}

proof fn lemma_read(s: Seq<char>, c: char)
    ensures
        s.len() > 0 || c != '+' ==> crate::numbers::unsigned(s.push(c))
            == crate::numbers::unsigned(s).push(c),
        crate::numbers::value_of(crate::numbers::unsigned(s).push(c)) == crate::numbers::value_of(
            crate::numbers::unsigned(s),
        ) * 10 + (c as nat - 48) as nat,
        crate::numbers::all_digits(crate::numbers::unsigned(s).push(c))
            <==> crate::numbers::all_digits(crate::numbers::unsigned(s)) && '0' <= c <= '9',
{
    let u = crate::numbers::unsigned(s);
    assert(u.push(c).drop_last() =~= u);
    if s.len() > 0 || c != '+' {
        assert(crate::numbers::unsigned(s.push(c)) =~= u.push(c));
    }
    assert(u.push(c)[u.len() as int] == c);
    if crate::numbers::all_digits(u.push(c)) {
        assert forall|i: int| #![trigger u[i]] 0 <= i < u.len() implies crate::numbers::is_digit(
            u[i],
        ) by {
            assert(u.push(c)[i] == u[i]);
        }
    }
    if crate::numbers::all_digits(u) && '0' <= c <= '9' {
        assert forall|i: int| #![trigger u.push(c)[i]]
            0 <= i < u.push(c).len() implies crate::numbers::is_digit(u.push(c)[i]) by {
            if i < u.len() {
                assert(u.push(c)[i] == u[i]);
            }
        }
    }
}

/// Every color has a name, and each name is one color.
pub proof fn colors_have_names()
    ensures
        named_color("black"@) == Some(Color::Black),
        named_color("red"@) == Some(Color::Red),
        named_color("green"@) == Some(Color::Green),
        named_color("yellow"@) == Some(Color::Yellow),
        named_color("blue"@) == Some(Color::Blue),
        named_color("magenta"@) == Some(Color::Magenta),
        named_color("cyan"@) == Some(Color::Cyan),
        named_color("white"@) == Some(Color::White),
        named_color("gray"@) == Some(Color::Gray),
        named_color("darkgray"@) == Some(Color::DarkGray),
        named_color("lightred"@) == Some(Color::LightRed),
        named_color("lightgreen"@) == Some(Color::LightGreen),
        named_color("lightyellow"@) == Some(Color::LightYellow),
        named_color("lightblue"@) == Some(Color::LightBlue),
        named_color("lightmagenta"@) == Some(Color::LightMagenta),
        named_color("lightcyan"@) == Some(Color::LightCyan),
{
    reveal_strlit("black");
    reveal_strlit("red");
    reveal_strlit("green");
    reveal_strlit("yellow");
    reveal_strlit("blue");
    reveal_strlit("magenta");
    reveal_strlit("cyan");
    reveal_strlit("white");
    reveal_strlit("gray");
    reveal_strlit("darkgray");
    reveal_strlit("lightred");
    reveal_strlit("lightgreen");
    reveal_strlit("lightyellow");
    reveal_strlit("lightblue");
    reveal_strlit("lightmagenta");
    reveal_strlit("lightcyan");
    assert("black"@.len() == 5);
    assert("red"@.len() == 3);
    assert("green"@.len() == 5);
    assert("yellow"@.len() == 6);
    assert("blue"@.len() == 4);
    assert("magenta"@.len() == 7);
    assert("cyan"@.len() == 4);
    assert("white"@.len() == 5);
    assert("gray"@.len() == 4);
    assert("darkgray"@.len() == 8);
    assert("lightred"@.len() == 8);
    assert("lightgreen"@.len() == 10);
    assert("lightyellow"@.len() == 11);
    assert("lightblue"@.len() == 9);
    assert("lightmagenta"@.len() == 12);
    assert("lightcyan"@.len() == 9);
    assert("black"@[0] == 'b' && "green"@[0] == 'g' && "white"@[0] == 'w');
    assert("blue"@[0] == 'b' && "cyan"@[0] == 'c' && "gray"@[0] == 'g');
    assert("darkgray"@[0] == 'd' && "lightred"@[0] == 'l');
    assert("lightblue"@[5] == 'b' && "lightcyan"@[5] == 'c');
}

/// A configuration names its color in any case; where it names none that is known, it is dark
/// gray.
pub proof fn unknown_colors_are_dark_gray(name: Seq<char>)
    ensures
        named_color(name) is Some ==> seq![
            "black"@,
            "red"@,
            "green"@,
            "yellow"@,
            "blue"@,
            "magenta"@,
            "cyan"@,
            "white"@,
            "gray"@,
            "darkgray"@,
            "lightred"@,
            "lightgreen"@,
            "lightyellow"@,
            "lightblue"@,
            "lightmagenta"@,
            "lightcyan"@,
        ].contains(name),
        color_of(None) == Color::DarkGray,
        named_color(lower(name)) is None ==> color_of(Some(name)) == Color::DarkGray,
        named_color(lower(name)) matches Some(c) ==> color_of(Some(name)) == c,
{
    let all = seq![
        "black"@,
        "red"@,
        "green"@,
        "yellow"@,
        "blue"@,
        "magenta"@,
        "cyan"@,
        "white"@,
        "gray"@,
        "darkgray"@,
        "lightred"@,
        "lightgreen"@,
        "lightyellow"@,
        "lightblue"@,
        "lightmagenta"@,
        "lightcyan"@,
    ];
    assert(all[0] == "black"@);
    assert(all[1] == "red"@);
    assert(all[2] == "green"@);
    assert(all[3] == "yellow"@);
    assert(all[4] == "blue"@);
    assert(all[5] == "magenta"@);
    assert(all[6] == "cyan"@);
    assert(all[7] == "white"@);
    assert(all[8] == "gray"@);
    assert(all[9] == "darkgray"@);
    assert(all[10] == "lightred"@);
    assert(all[11] == "lightgreen"@);
    assert(all[12] == "lightyellow"@);
    assert(all[13] == "lightblue"@);
    assert(all[14] == "lightmagenta"@);
    assert(all[15] == "lightcyan"@);
}

} // verus!
