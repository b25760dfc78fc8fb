//! Pieces of text with a style.

use crate::bytes::{after, before, between_chars, head, len, middle, part, size, tail};
use crate::tui::color::Color;
use vstd::prelude::*;

verus! {

/// How a piece of text is shown.
#[derive(Debug, Clone, Copy, PartialEq, Eq, Structural)]
pub enum SpanStyle {
    /// As it is.
    Raw,
    /// As selected input.
    Selected,
    /// On a background.
    Highlighted(Color),
}

/// A piece of text with a style.
#[derive(Debug, Clone, PartialEq, Eq)]
pub struct Span {
    pub text: String,
    pub style: SpanStyle,
}

/// A span's text and style.
pub type SpanView = (Seq<char>, SpanStyle);

impl View for Span {
    type V = SpanView;

    open spec fn view(&self) -> SpanView {
        (self.text@, self.style)
    }
}

/// The spans of a list as texts with styles.
pub open spec fn shown(list: Seq<Span>) -> Seq<SpanView> {
    list.map_values(|s: Span| s@)
}

/// The text of all spans of a list in a row.
pub open spec fn all_text(list: Seq<SpanView>) -> Seq<char>
    decreases list.len(),
{
    if list.len() == 0 {
        seq![]
    } else {
        all_text(list.drop_last()) + list.last().0
    }
}

/// Adds a span to a list.
pub fn add_span(list: &mut Vec<Span>, text: &str, style: SpanStyle)
    ensures
        shown(final(list)@) == shown(old(list)@).push((text@, style)),
{
    list.push(Span { text: String::from_str(text), style });
    assert(shown(list@) =~= shown(old(list)@).push((text@, style)));
}

/// The search line with what is selected in its own style.
pub open spec fn input_spans(text: Seq<char>, range: Option<(usize, usize)>) -> Seq<SpanView> {
    match range {
        None => seq![(text, SpanStyle::Raw)],
        Some((start, end)) => {
            (if start > 0 {
                seq![(before(text, start as int), SpanStyle::Raw)]
            } else {
                seq![]
            }) + seq![(part(text, start as int, end as int), SpanStyle::Selected)] + (if end < size(
                text,
            ) {
                seq![(after(text, end as int), SpanStyle::Raw)]
            } else {
                seq![]
            })
        },
    }
}

/// Shows the search line with what is selected in its own style.
pub fn create_input_spans(search_input: &str, selected_range: Option<(usize, usize)>) -> (r: Vec<
    Span,
>)
    requires
        selected_range matches Some((start, end)) ==> start <= end && between_chars(
            search_input@,
            start as int,
        ) && between_chars(search_input@, end as int),
    ensures
        shown(r@) == input_spans(search_input@, selected_range),
{
    let mut spans: Vec<Span> = Vec::new();
    if let Some((start, end)) = selected_range {
        if start > 0 {
            add_span(&mut spans, head(search_input, start), SpanStyle::Raw);
        }
        add_span(&mut spans, middle(search_input, start, end), SpanStyle::Selected);
        if end < len(search_input) {
            add_span(&mut spans, tail(search_input, end), SpanStyle::Raw);
        }
    } else {
        add_span(&mut spans, search_input, SpanStyle::Raw);
    }
    assert(shown(spans@) =~= input_spans(search_input@, selected_range));
    spans
}

} // verus!
