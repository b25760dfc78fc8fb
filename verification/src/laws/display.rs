//! What holds of everything that is shown.

use crate::bytes::{
    after, before, between_chars, lemma_between_bound, lemma_concat_boundary,
    lemma_encode_injective, lemma_ends, lemma_parted, lemma_parted_twice, part, size,
};
use crate::patterns::accepts;
use crate::query::has_meta;
use crate::text::{ascii_lower, lower, occurs, occurs_at, words};
use crate::tui::app::AppView;
use crate::tui::color::Color;
use crate::tui::highlight::{
    apart, by_place, end_of, fit, highlight_pattern, highlighted_spans, highlights,
    lemma_highlights_ordered, lemma_name_start, lemma_shortest, lemma_take_size, name_start,
    ordered, pattern_ranges, place_is_total, ranges_of_word, ranges_of_words, shortest,
    spans_up_to, spans_with, word_ranges, Range,
};
use crate::tui::screen::{can_show, row_fits};
use crate::tui::span::{all_text, input_spans, SpanStyle, SpanView};
use vstd::prelude::*;
use vstd::utf8::{encode_utf8, is_ascii_chars, is_ascii_chars_encode_utf8};

verus! {

proof fn lemma_all_text_push(list: Seq<SpanView>, span: SpanView)
    ensures
        all_text(list.push(span)) == all_text(list) + span.0,
{
    assert(list.push(span).drop_last() =~= list);
}

/// The search line shows its text, whatever is selected.
pub proof fn the_line_is_shown_whole(text: Seq<char>, range: Option<(usize, usize)>)
    requires
        range matches Some((start, end)) ==> start <= end && between_chars(text, start as int)
            && between_chars(text, end as int),
    ensures
        all_text(input_spans(text, range)) == text,
{
    let empty = Seq::<SpanView>::empty();
    assert(all_text(empty) =~= seq![]);
    match range {
        None => {
            lemma_all_text_push(empty, input_spans(text, range)[0]);
            assert(empty.push(input_spans(text, range)[0]) =~= input_spans(text, range));
            assert(seq![] + text =~= text);
        },
        Some((start, end)) => {
            let spans = input_spans(text, range);
            lemma_parted_twice(text, start as int, end as int);
            lemma_parted(text, start as int);
            lemma_parted(text, end as int);
            let first = if start > 0 {
                empty.push(spans[0])
            } else {
                empty
            };
            let middle = spans[first.len() as int];
            if start > 0 {
                lemma_all_text_push(empty, spans[0]);
                assert(seq![] + before(text, start as int) =~= before(text, start as int));
            } else {
                lemma_empty(before(text, 0));
            }
            assert(all_text(first) =~= before(text, start as int));
            lemma_all_text_push(first, middle);
            if end < size(text) {
                lemma_all_text_push(first.push(middle), spans.last());
                assert(first.push(middle).push(spans.last()) =~= spans);
            } else {
                lemma_empty(after(text, end as int));
                assert(first.push(middle) =~= spans);
                assert(before(text, start as int) + part(text, start as int, end as int) + seq![]
                    =~= before(text, start as int) + part(text, start as int, end as int));
            }
        },
    }
}

proof fn lemma_empty(s: Seq<char>)
    requires
        size(s) == 0,
    ensures
        s == Seq::<char>::empty(),
{
    assert(encode_utf8(Seq::<char>::empty()) =~= Seq::<u8>::empty());
    assert(encode_utf8(s) =~= Seq::<u8>::empty());
    lemma_encode_injective(s, Seq::<char>::empty());
}

proof fn lemma_spans_up_to(text: Seq<char>, list: Seq<Range>, color: Color)
    requires
        ordered(list),
        fit(text, list),
    ensures
        between_chars(text, end_of(list) as int),
        all_text(spans_up_to(text, list, color)) == before(text, end_of(list) as int),
    decreases list.len(),
{
    lemma_ends(text);
    if list.len() == 0 {
        lemma_parted(text, 0);
        lemma_empty(before(text, 0));
        assert(all_text(spans_up_to(text, list, color)) =~= seq![]);
    } else {
        let first = list.drop_last();
        let (start, end) = list.last();
        assert(list[list.len() - 1] == list.last());
        assert forall|i: int| #![trigger first[i]] 0 <= i < first.len() implies first[i]
            == list[i] by {}
        assert(ordered(first));
        lemma_spans_up_to(text, first, color);
        let e = end_of(first);
        if first.len() > 0 {
            assert(list[list.len() - 2] == first.last());
        }
        assert(e <= start <= end);
        let so_far = spans_up_to(text, first, color);
        lemma_joined(text, e as int, start as int);
        lemma_joined(text, start as int, end as int);
        if start > e {
            let gap = (part(text, e as int, start as int), SpanStyle::Raw);
            lemma_all_text_push(so_far, gap);
            lemma_all_text_push(so_far.push(gap), spans_up_to(text, list, color).last());
        } else {
            lemma_all_text_push(so_far, spans_up_to(text, list, color).last());
        }
    }
}

proof fn lemma_joined(text: Seq<char>, i: int, j: int)
    requires
        between_chars(text, i),
        between_chars(text, j),
        i <= j,
    ensures
        before(text, i) + part(text, i, j) == before(text, j),
{
    lemma_parted_twice(text, i, j);
    lemma_parted(text, j);
    let head = before(text, j);
    lemma_parted(head, i);
}

/// A result shows its path, whatever is highlighted in it.
pub proof fn results_are_shown_whole(row: Seq<char>, term: Seq<char>, color: Color)
    requires
        row_fits(row, term),
        size(lower(row)) <= usize::MAX,
    ensures
        all_text(highlighted_spans(row, term, color)) == row,
{
    if words(term).len() == 0 {
        let empty = Seq::<SpanView>::empty();
        let span = highlighted_spans(row, term, color)[0];
        lemma_all_text_push(empty, span);
        assert(empty.push(span) =~= highlighted_spans(row, term, color));
        assert(all_text(empty) + row =~= row);
    } else {
        let list = highlights(row, term);
        lemma_highlights_ordered(row, term);
        lemma_spans_up_to(row, list, color);
        lemma_parted(row, end_of(list) as int);
        let so_far = spans_up_to(row, list, color);
        if end_of(list) < size(row) {
            lemma_all_text_push(so_far, spans_with(row, list, color).last());
        } else {
            lemma_empty(after(row, end_of(list) as int));
            assert(before(row, end_of(list) as int) + seq![] =~= before(row, end_of(list) as int));
        }
    }
}

/// In an ASCII text every offset lies between characters.
pub proof fn ascii_parts_anywhere(text: Seq<char>, i: int)
    requires
        is_ascii_chars(text),
        0 <= i <= size(text),
    ensures
        between_chars(text, i),
{
    is_ascii_chars_encode_utf8(text);
    let head = text.take(i);
    assert forall|k: int| 0 <= k < head.len() implies '\0' <= #[trigger] head[k] <= '\u{7f}' by {
        assert(head[k] == text[k]);
    }
    is_ascii_chars_encode_utf8(head);
    lemma_concat_boundary(head, text.skip(i));
    assert(head + text.skip(i) =~= text);
}

/// An ASCII path can always be shown, whatever is searched for.
pub proof fn ascii_results_can_be_shown(row: Seq<char>, term: Seq<char>)
    requires
        is_ascii_chars(row),
        size(row) <= usize::MAX,
    ensures
        row_fits(row, term),
{
    let low = lower(row);
    is_ascii_chars_encode_utf8(row);
    assert(is_ascii_chars(low)) by {
        assert forall|k: int| 0 <= k < low.len() implies '\0' <= #[trigger] low[k] <= '\u{7f}' by {
            assert('\0' <= row[k] <= '\u{7f}');
            assert(low[k] == ascii_lower(row[k]));
        }
    }
    is_ascii_chars_encode_utf8(low);
    lemma_highlights_ordered(row, term);
    let list = highlights(row, term);
    assert forall|i: int| #![trigger list[i]] 0 <= i < list.len() implies between_chars(
        row,
        list[i].0 as int,
    ) && between_chars(row, list[i].1 as int) by {
        lemma_between_bound(low, list[i].0 as int);
        lemma_between_bound(low, list[i].1 as int);
        ascii_parts_anywhere(row, list[i].0 as int);
        ascii_parts_anywhere(row, list[i].1 as int);
    }
}

/// A state can always be shown if its line and its results are ASCII and its selection lies
/// within the line.
pub proof fn ascii_states_can_be_shown(app: AppView)
    requires
        app.wf(),
        is_ascii_chars(app.line.text),
        app.line.anchor matches Some(a) ==> a <= size(app.line.text),
        forall|i: int| #![trigger app.results[i]]
            0 <= i < app.results.len() ==> is_ascii_chars(app.results[i]) && size(app.results[i])
                <= usize::MAX,
    ensures
        can_show(app),
{
    if let Some((start, end)) = app.line.selected() {
        ascii_parts_anywhere(app.line.text, start as int);
        ascii_parts_anywhere(app.line.text, end as int);
    }
    assert forall|i: int| #![trigger app.results[i]] 0 <= i < app.results.len() implies row_fits(
        app.results[i],
        app.line.text,
    ) by {
        ascii_results_can_be_shown(app.results[i], app.line.text);
    }
}

/// A text is what a word of a query looks for: the word itself, or what its pattern accepts.
pub open spec fn is_sought(found: Seq<char>, word: Seq<char>) -> bool {
    if has_meta(word) {
        accepts(highlight_pattern(word), found)
    } else {
        found == word
    }
}

/// Every range of a list is what a word looks for.
pub open spec fn all_sought(s: Seq<char>, list: Seq<Range>, word: Seq<char>) -> bool {
    forall|i: int| #![trigger list[i]]
        0 <= i < list.len() ==> is_sought(part(s, list[i].0 as int, list[i].1 as int), word)
}

proof fn lemma_word_ranges_sought(s: Seq<char>, word: Seq<char>, k: int)
    requires
        0 <= k,
        size(s) <= usize::MAX,
        !has_meta(word),
    ensures
        all_sought(s, word_ranges(s, word, k), word),
    decreases s.len() - k + 1,
{
    if k <= s.len() {
        if occurs_at(s, word, k) {
            let step = if word.len() > 0 {
                word.len() as int
            } else {
                1
            };
            lemma_take_size(s, k, k + word.len());
            lemma_word_ranges_sought(s, word, k + step);
        } else {
            lemma_word_ranges_sought(s, word, k + 1);
        }
    }
}

proof fn lemma_pattern_ranges_sought(s: Seq<char>, word: Seq<char>, k: int)
    requires
        0 <= k,
        size(s) <= usize::MAX,
        has_meta(word),
    ensures
        all_sought(s, pattern_ranges(s, highlight_pattern(word), k), word),
    decreases s.len() - k,
{
    if k < s.len() {
        let pattern = highlight_pattern(word);
        lemma_shortest(s, pattern, k, k + 1);
        if let Some(e) = shortest(s, pattern, k, k + 1) {
            lemma_take_size(s, k, e);
        }
        lemma_pattern_ranges_sought(s, word, k + 1);
    }
}

proof fn lemma_ranges_sought(s: Seq<char>, list: Seq<Seq<char>>, r: Range)
    requires
        size(s) <= usize::MAX,
        ranges_of_words(s, list).contains(r),
    ensures
        exists|k: int|
            0 <= k < list.len() && is_sought(
                part(s, r.0 as int, r.1 as int),
                lower(#[trigger] list[k]),
            ),
    decreases list.len(),
{
    let all = ranges_of_words(s, list);
    let i = choose|i: int| 0 <= i < all.len() && all[i] == r;
    if list.len() > 0 {
        let first = ranges_of_words(s, list.drop_last());
        let word = lower(list.last());
        if i < first.len() {
            assert(first[i] == r);
            lemma_ranges_sought(s, list.drop_last(), r);
            let k = choose|k: int|
                0 <= k < list.drop_last().len() && is_sought(
                    part(s, r.0 as int, r.1 as int),
                    lower(#[trigger] list.drop_last()[k]),
                );
            assert(list[k] == list.drop_last()[k]);
        } else {
            lemma_name_start(s);
            if has_meta(word) {
                lemma_pattern_ranges_sought(s, word, 0);
                lemma_pattern_ranges_sought(s, word, name_start(s));
            } else {
                lemma_word_ranges_sought(s, word, 0);
            }
            assert(ranges_of_word(s, word)[i - first.len()] == r);
            assert(list[list.len() - 1] == list.last());
        }
    }
}

/// Every range that is taken is one of the list.
pub proof fn lemma_apart(list: Seq<Range>, i: int) -> (k: int)
    requires
        0 <= i < apart(list).len(),
    ensures
        0 <= k < list.len(),
        list[k] == apart(list)[i],
    decreases list.len(),
{
    let taken = apart(list.drop_last());
    if i < taken.len() {
        lemma_apart(list.drop_last(), i)
    } else {
        list.len() - 1
    }
}

/// What is highlighted in a path is, in lower case, what a word of the query looks for.
pub proof fn highlights_are_sought(row: Seq<char>, term: Seq<char>, i: int)
    requires
        size(lower(row)) <= usize::MAX,
        0 <= i < highlights(row, term).len(),
    ensures
        ({
            let (start, end) = highlights(row, term)[i];
            exists|k: int|
                0 <= k < words(term).len() && is_sought(
                    part(lower(row), start as int, end as int),
                    lower(#[trigger] words(term)[k]),
                )
        }),
{
    let list = ranges_of_words(lower(row), words(term));
    place_is_total();
    list.lemma_sort_by_ensures(by_place());
    let sorted = list.sort_by(by_place());
    let k = lemma_apart(sorted, i);
    assert(sorted.contains(sorted[k]));
    assert(list.contains(sorted[k]));
    lemma_ranges_sought(lower(row), words(term), sorted[k]);
}

proof fn lemma_word_found(s: Seq<char>, word: Seq<char>, k: int, at: int)
    requires
        0 <= k <= at,
        occurs_at(s, word, at),
    ensures
        word_ranges(s, word, k).len() > 0,
    decreases at - k,
{
    if !occurs_at(s, word, k) {
        lemma_word_found(s, word, k + 1, at);
    }
}

proof fn lemma_words_found(s: Seq<char>, list: Seq<Seq<char>>, k: int)
    requires
        0 <= k < list.len(),
        !has_meta(lower(list[k])),
        occurs(s, lower(list[k])),
    ensures
        ranges_of_words(s, list).len() > 0,
    decreases list.len(),
{
    if k == list.len() - 1 {
        let at = choose|at: int| occurs_at(s, lower(list[k]), at);
        lemma_word_found(s, lower(list[k]), 0, at);
    } else {
        lemma_words_found(s, list.drop_last(), k);
    }
}

proof fn lemma_apart_some(list: Seq<Range>)
    requires
        list.len() > 0,
    ensures
        apart(list).len() > 0,
    decreases list.len(),
{
    if list.len() > 1 {
        lemma_apart_some(list.drop_last());
    } else {
        assert(apart(list.drop_last()).len() == 0);
    }
}

/// If a word without wildcards stands in a path, something is highlighted.
pub proof fn found_words_are_highlighted(row: Seq<char>, term: Seq<char>, k: int)
    requires
        0 <= k < words(term).len(),
        !has_meta(lower(words(term)[k])),
        occurs(lower(row), lower(words(term)[k])),
    ensures
        highlights(row, term).len() > 0,
{
    broadcast use vstd::seq_lib::group_to_multiset_ensures;

    let list = ranges_of_words(lower(row), words(term));
    lemma_words_found(lower(row), words(term), k);
    place_is_total();
    list.lemma_sort_by_ensures(by_place());
    assert(list.len() == list.to_multiset().len());
    assert(list.sort_by(by_place()).len() == list.sort_by(by_place()).to_multiset().len());
    lemma_apart_some(list.sort_by(by_place()));
}

} // verus!
