//! What holds of everything that is highlighted.

use crate::bytes::{
    between_chars, lemma_between_bound, lemma_ends, lemma_parted_twice, part, size,
};
use crate::laws::display::{ascii_results_can_be_shown, lemma_apart};
use crate::laws::parsing::{is_ascii_word, lemma_ascii_words, lemma_lower_keeps};
use crate::query::has_meta;
use crate::text::{ascii_lower, lower, occurs, occurs_at, words};
use crate::tui::color::Color;
use crate::tui::highlight::{
    apart, by_place, end_of, fit, highlight_pattern, highlighted_spans, highlights,
    lemma_highlights_ordered, lemma_name_start, lemma_shortest, lemma_take_size, name_start,
    ordered, pattern_ranges, place_is_total, range, ranges_of_word, ranges_of_words, shortest,
    spans_up_to, spans_with, word_ranges, Range,
};
use crate::tui::screen::row_fits;
use crate::tui::span::{SpanStyle, SpanView};
use vstd::prelude::*;
use vstd::relations::sorted_by;
use vstd::seq_lib::lemma_sorted_unique;
use vstd::utf8::{encode_utf8, encode_utf8_valid_utf8, is_ascii_chars, is_ascii_chars_encode_utf8};

verus! {

/// No range of a list is empty.
pub open spec fn none_empty(list: Seq<Range>) -> bool {
    forall|i: int| #![trigger list[i]] 0 <= i < list.len() ==> list[i].0 < list[i].1
}

proof fn lemma_some_bytes(s: Seq<char>)
    requires
        s.len() > 0,
    ensures
        size(s) > 0,
{
    encode_utf8_valid_utf8(s);
}

proof fn lemma_range_not_empty(s: Seq<char>, i: int, j: int)
    requires
        0 <= i < j <= s.len(),
        size(s) <= usize::MAX,
    ensures
        range(s, i, j).0 < range(s, i, j).1,
{
    lemma_take_size(s, i, j);
    lemma_some_bytes(s.subrange(i, j));
}

proof fn lemma_words_not_empty(s: Seq<char>, word: Seq<char>, k: int)
    requires
        0 <= k,
        size(s) <= usize::MAX,
        word.len() > 0,
    ensures
        none_empty(word_ranges(s, word, k)),
    decreases s.len() - k + 1,
{
    if k <= s.len() {
        if occurs_at(s, word, k) {
            lemma_range_not_empty(s, k, k + word.len());
            lemma_words_not_empty(s, word, k + word.len());
        } else {
            lemma_words_not_empty(s, word, k + 1);
        }
    }
}

proof fn lemma_patterns_not_empty(s: Seq<char>, pattern: Seq<char>, k: int)
    requires
        0 <= k,
        size(s) <= usize::MAX,
    ensures
        none_empty(pattern_ranges(s, pattern, k)),
    decreases s.len() - k,
{
    if k < s.len() {
        lemma_shortest(s, pattern, k, k + 1);
        if let Some(e) = shortest(s, pattern, k, k + 1) {
            lemma_range_not_empty(s, k, e);
        }
        lemma_patterns_not_empty(s, pattern, k + 1);
    }
}

proof fn lemma_word_not_empty(s: Seq<char>, word: Seq<char>)
    requires
        size(s) <= usize::MAX,
        word.len() > 0,
    ensures
        none_empty(ranges_of_word(s, word)),
{
    lemma_name_start(s);
    lemma_words_not_empty(s, word, 0);
    lemma_patterns_not_empty(s, highlight_pattern(word), 0);
    lemma_patterns_not_empty(s, highlight_pattern(word), name_start(s));
}

/// A range comes from one of the words.
pub open spec fn comes_from(s: Seq<char>, list: Seq<Seq<char>>, r: Range) -> bool {
    exists|k: int|
        0 <= k < list.len() && ranges_of_word(s, lower(#[trigger] list[k])).contains(r)
}

/// A range is found by a list of words if one of them finds it.
pub proof fn lemma_comes_from(s: Seq<char>, list: Seq<Seq<char>>, r: Range)
    ensures
        ranges_of_words(s, list).contains(r) <==> comes_from(s, list, r),
    decreases list.len(),
{
    if list.len() > 0 {
        let first = list.drop_last();
        lemma_comes_from(s, first, r);
        let a = ranges_of_words(s, first);
        let b = ranges_of_word(s, lower(list.last()));
        let all = ranges_of_words(s, list);
        assert(list[list.len() - 1] == list.last());
        if all.contains(r) {
            let i = choose|i: int| 0 <= i < all.len() && all[i] == r;
            if i < a.len() {
                assert(a[i] == r);
                let k = choose|k: int|
                    0 <= k < first.len() && ranges_of_word(s, lower(#[trigger] first[k])).contains(
                        r,
                    );
                assert(list[k] == first[k]);
            } else {
                assert(b[i - a.len()] == r);
            }
        }
        if comes_from(s, list, r) {
            let k = choose|k: int|
                0 <= k < list.len() && ranges_of_word(s, lower(#[trigger] list[k])).contains(r);
            if k < first.len() {
                assert(first[k] == list[k]);
                let i = choose|i: int| 0 <= i < a.len() && a[i] == r;
                assert(all[i] == r);
            } else {
                let i = choose|i: int| 0 <= i < b.len() && b[i] == r;
                assert(all[a.len() + i] == r);
            }
        }
    } else {
        assert(ranges_of_words(s, list).len() == 0);
    }
}

proof fn lemma_sorted_ranges(list: Seq<Range>)
    ensures
        sorted_by(list.sort_by(by_place()), by_place()),
        list.sort_by(by_place()).len() == list.len(),
        forall|r: Range| #[trigger] list.sort_by(by_place()).contains(r) <==> list.contains(r),
{
    broadcast use vstd::seq_lib::group_to_multiset_ensures;

    let sorted = list.sort_by(by_place());
    place_is_total();
    list.lemma_sort_by_ensures(by_place());
    assert(list.len() == list.to_multiset().len());
    assert(sorted.len() == sorted.to_multiset().len());
    assert forall|r: Range| #[trigger] sorted.contains(r) <==> list.contains(r) by {
        assert(sorted.contains(r) <==> sorted.to_multiset().count(r) > 0);
        assert(list.contains(r) <==> list.to_multiset().count(r) > 0);
    }
}

proof fn lemma_none_empty(s: Seq<char>, list: Seq<Seq<char>>)
    requires
        size(s) <= usize::MAX,
        forall|k: int| 0 <= k < list.len() ==> lower(#[trigger] list[k]).len() > 0,
    ensures
        none_empty(ranges_of_words(s, list).sort_by(by_place())),
{
    let all = ranges_of_words(s, list);
    let sorted = all.sort_by(by_place());
    lemma_sorted_ranges(all);
    assert forall|i: int| #![trigger sorted[i]] 0 <= i < sorted.len() implies sorted[i].0
        < sorted[i].1 by {
        assert(sorted.contains(sorted[i]));
        lemma_comes_from(s, list, sorted[i]);
        let k = choose|k: int|
            0 <= k < list.len() && ranges_of_word(s, lower(#[trigger] list[k])).contains(sorted[i]);
        lemma_word_not_empty(s, lower(list[k]));
        let from = ranges_of_word(s, lower(list[k]));
        let j = choose|j: int| 0 <= j < from.len() && from[j] == sorted[i];
        assert(from[j].0 < from[j].1);
    }
}

proof fn lemma_ascii_term(term: Seq<char>)
    requires
        is_ascii_chars(term),
    ensures
        forall|k: int| 0 <= k < words(term).len() ==> lower(#[trigger] words(term)[k]).len() > 0,
{
    lemma_ascii_words(term);
    assert forall|k: int| 0 <= k < words(term).len() implies lower(
        #[trigger] words(term)[k],
    ).len() > 0 by {
        assert(is_ascii_word(words(term)[k]));
    }
}

/// What is highlighted is never empty.
pub proof fn highlights_are_not_empty(row: Seq<char>, term: Seq<char>)
    requires
        size(lower(row)) <= usize::MAX,
        is_ascii_chars(term),
    ensures
        none_empty(highlights(row, term)),
{
    lemma_ascii_term(term);
    lemma_none_empty(lower(row), words(term));
    let sorted = ranges_of_words(lower(row), words(term)).sort_by(by_place());
    let list = highlights(row, term);
    assert forall|i: int| #![trigger list[i]] 0 <= i < list.len() implies list[i].0
        < list[i].1 by {
        let k = lemma_apart(sorted, i);
        assert(sorted[k].0 < sorted[k].1);
    }
}

/// No range of a list lies in a part of a text that is not empty.
pub open spec fn is_gap(list: Seq<Range>, a: int, b: int) -> bool {
    &&& 0 <= a < b
    &&& forall|j: int| #![trigger list[j]]
        0 <= j < list.len() ==> list[j].1 <= a || b <= list[j].0
}

/// A span of a text shows one of the ranges highlighted, or what lies between them as it is.
pub open spec fn is_span_of(
    span: SpanView,
    text: Seq<char>,
    list: Seq<Range>,
    color: Color,
) -> bool {
    match span.1 {
        SpanStyle::Highlighted(c) => c == color && exists|j: int|
            0 <= j < list.len() && span.0 == part(
                text,
                (#[trigger] list[j]).0 as int,
                list[j].1 as int,
            ),
        SpanStyle::Raw => exists|a: int, b: int|
            is_gap(list, a, b) && between_chars(text, a) && between_chars(text, b) && span.0
                == #[trigger] part(text, a, b),
        SpanStyle::Selected => false,
    }
}

/// No two spans that are shown as they are follow each other.
pub open spec fn raws_apart(spans: Seq<SpanView>) -> bool {
    forall|i: int, j: int| #![trigger spans[i], spans[j]]
        0 <= i && j == i + 1 && j < spans.len() ==> spans[i].1 != SpanStyle::Raw || spans[j].1
            != SpanStyle::Raw
}

proof fn lemma_spans(text: Seq<char>, list: Seq<Range>, color: Color, n: int)
    requires
        ordered(list),
        fit(text, list),
        0 <= n <= list.len(),
    ensures
        ({
            let spans = spans_up_to(text, list.take(n), color);
            &&& raws_apart(spans)
            &&& spans.len() > 0 ==> spans.last().1 is Highlighted
            &&& n > 0 ==> spans.len() > 0
            &&& forall|i: int| #![trigger spans[i]]
                0 <= i < spans.len() ==> is_span_of(spans[i], text, list, color)
        }),
    decreases n,
{
    lemma_ends(text);
    if n > 0 {
        lemma_spans(text, list, color, n - 1);
        let first = list.take(n - 1);
        assert(list.take(n).drop_last() =~= first);
        let before = spans_up_to(text, first, color);
        let (start, end) = list[n - 1];
        assert(list.take(n).last() == list[n - 1]);
        let e = end_of(first);
        if n > 1 {
            assert(first.last() == list[n - 2]);
            assert(list[n - 2].1 <= list[n - 1].0);
        }
        let shown = (part(text, start as int, end as int), SpanStyle::Highlighted(color));
        assert(is_span_of(shown, text, list, color)) by {
            assert(shown.0 == part(text, list[n - 1].0 as int, list[n - 1].1 as int));
        }
        if start > e {
            let gap = (part(text, e as int, start as int), SpanStyle::Raw);
            assert(is_gap(list, e as int, start as int)) by {
                assert forall|j: int| #![trigger list[j]] 0 <= j < list.len() implies list[j].1 <= e
                    || start <= list[j].0 by {
                    if j < n - 2 {
                        assert(list[j].1 <= list[n - 2].0 <= list[n - 2].1);
                    } else if j > n - 1 {
                        assert(list[n - 1].0 <= list[n - 1].1 <= list[j].0);
                    }
                }
            }
            assert(between_chars(text, e as int));
            assert(is_span_of(gap, text, list, color));
            assert(spans_up_to(text, list.take(n), color) =~= before.push(gap).push(shown));
        } else {
            assert(spans_up_to(text, list.take(n), color) =~= before.push(shown));
        }
    }
}

/// Every span shows a range, or what lies between ranges.
pub proof fn lemma_all_spans(text: Seq<char>, list: Seq<Range>, color: Color)
    requires
        ordered(list),
        fit(text, list),
    ensures
        ({
            let spans = spans_with(text, list, color);
            &&& raws_apart(spans)
            &&& forall|i: int| #![trigger spans[i]]
                0 <= i < spans.len() ==> is_span_of(spans[i], text, list, color)
        }),
{
    let n = list.len() as int;
    lemma_spans(text, list, color, n);
    assert(list.take(n) =~= list);
    lemma_ends(text);
    let e = end_of(list);
    if e < size(text) {
        let rest = (part(text, e as int, size(text) as int), SpanStyle::Raw);
        if n > 0 {
            assert(list.last() == list[n - 1]);
        }
        assert(is_gap(list, e as int, size(text) as int)) by {
            assert forall|j: int| #![trigger list[j]] 0 <= j < list.len() implies list[j].1
                <= e by {
                if j < n - 1 {
                    assert(list[j].1 <= list[n - 1].0 <= list[n - 1].1);
                }
            }
        }
        assert(is_span_of(rest, text, list, color));
    }
}

/// A result is shown as highlighted parts and what lies between them: no highlighted part is
/// empty, and no two parts that are not highlighted follow each other.
pub proof fn highlighted_parts_alternate(row: Seq<char>, term: Seq<char>, color: Color)
    requires
        size(lower(row)) <= usize::MAX,
        row_fits(row, term),
        is_ascii_chars(term),
    ensures
        raws_apart(highlighted_spans(row, term, color)),
        forall|i: int| #![trigger highlighted_spans(row, term, color)[i]]
            0 <= i < highlighted_spans(row, term, color).len() && highlighted_spans(
                row,
                term,
                color,
            )[i].1 is Highlighted ==> highlighted_spans(row, term, color)[i].0.len() > 0,
{
    let spans = highlighted_spans(row, term, color);
    if words(term).len() > 0 {
        let list = highlights(row, term);
        lemma_highlights_ordered(row, term);
        highlights_are_not_empty(row, term);
        lemma_all_spans(row, list, color);
        assert forall|i: int| #![trigger spans[i]]
            0 <= i < spans.len() && spans[i].1 is Highlighted implies spans[i].0.len() > 0 by {
            assert(is_span_of(spans[i], row, list, color));
            let j = choose|j: int|
                0 <= j < list.len() && spans[i].0 == part(
                    row,
                    (#[trigger] list[j]).0 as int,
                    list[j].1 as int,
                );
            assert(list[j].0 < list[j].1);
            lemma_parted_twice(row, list[j].0 as int, list[j].1 as int);
            if spans[i].0.len() == 0 {
                assert(spans[i].0 =~= seq![]);
                assert(encode_utf8(spans[i].0) =~= seq![]);
            }
        }
    }
}

/// A blank query highlights nothing: a result is one part as it is.
pub proof fn blank_queries_highlight_nothing(row: Seq<char>, term: Seq<char>, color: Color)
    requires
        words(term).len() == 0,
    ensures
        row_fits(row, term),
        highlighted_spans(row, term, color) == seq![(row, SpanStyle::Raw)],
{
}

proof fn lemma_ascii_sizes(s: Seq<char>, i: int)
    requires
        is_ascii_chars(s),
        0 <= i <= s.len(),
    ensures
        size(s) == s.len(),
        size(s.take(i)) == i,
{
    is_ascii_chars_encode_utf8(s);
    let head = s.take(i);
    assert forall|k: int| 0 <= k < head.len() implies '\0' <= #[trigger] head[k] <= '\u{7f}' by {
        assert(head[k] == s[k]);
    }
    is_ascii_chars_encode_utf8(head);
}

proof fn lemma_ascii_part(s: Seq<char>, a: int, b: int)
    requires
        is_ascii_chars(s),
        0 <= a <= b <= s.len(),
    ensures
        part(s, a, b) == s.subrange(a, b),
        lower(part(s, a, b)) == lower(s).subrange(a, b),
{
    lemma_ascii_sizes(s, a);
    lemma_ascii_sizes(s, b);
    lemma_take_size(s, a, b);
    let sub = s.subrange(a, b);
    assert forall|k: int| 0 <= k < sub.len() implies '\0' <= #[trigger] sub[k] <= '\u{7f}' by {
        assert(sub[k] == s[a + k]);
    }
    assert(lower(sub) =~= lower(s).subrange(a, b));
}

proof fn lemma_ascii_lower(s: Seq<char>)
    requires
        is_ascii_chars(s),
    ensures
        is_ascii_chars(lower(s)),
        lower(s).len() == s.len(),
{
    let low = lower(s);
    assert forall|k: int| 0 <= k < low.len() implies '\0' <= #[trigger] low[k] <= '\u{7f}' by {
        assert('\0' <= s[k] <= '\u{7f}');
        assert(low[k] == ascii_lower(s[k]));
    }
}

/// The occurrences of a word in an ASCII text that do not overlap, from `k` on: they are in
/// order, they read as the word, and every occurrence begins within one of them.
proof fn lemma_word_ranges(s: Seq<char>, word: Seq<char>, k: int)
    requires
        is_ascii_chars(s),
        s.len() <= usize::MAX,
        word.len() > 0,
        0 <= k,
    ensures
        ({
            let list = word_ranges(s, word, k);
            &&& ordered(list)
            &&& none_empty(list)
            &&& forall|i: int| #![trigger list[i]]
                0 <= i < list.len() ==> k <= list[i].0 && list[i].1 <= s.len() && s.subrange(
                    list[i].0 as int,
                    list[i].1 as int,
                ) == word
            &&& forall|at: int| #[trigger]
                occurs_at(s, word, at) && k <= at ==> exists|i: int|
                    0 <= i < list.len() && (#[trigger] list[i]).0 <= at < list[i].1
        }),
    decreases s.len() - k + 1,
{
    let list = word_ranges(s, word, k);
    let n = word.len() as int;
    if k <= s.len() {
        if occurs_at(s, word, k) {
            lemma_word_ranges(s, word, k + n);
            lemma_ascii_sizes(s, k);
            lemma_ascii_sizes(s, k + n);
            let rest = word_ranges(s, word, k + n);
            let one = range(s, k, k + n);
            assert(list =~= seq![one] + rest);
            assert(one == ((k as usize), ((k + n) as usize)));
            assert forall|i: int| #![trigger list[i]] 0 <= i < list.len() implies list[i] == (if i
                == 0 {
                one
            } else {
                rest[i - 1]
            }) by {}
            assert forall|i: int, j: int| #![trigger list[i], list[j]]
                0 <= i < j < list.len() implies list[i].1 <= list[j].0 by {
                assert(list[j] == rest[j - 1]);
                if i > 0 {
                    assert(list[i] == rest[i - 1]);
                    assert(rest[i - 1].1 <= rest[j - 1].0);
                }
            }
            assert forall|at: int| #[trigger] occurs_at(s, word, at) && k <= at implies exists|
                i: int,
            |
                0 <= i < list.len() && (#[trigger] list[i]).0 <= at < list[i].1 by {
                if at < k + n {
                    assert(list[0].0 <= at < list[0].1);
                } else {
                    let i = choose|i: int|
                        0 <= i < rest.len() && (#[trigger] rest[i]).0 <= at < rest[i].1;
                    assert(list[i + 1] == rest[i]);
                }
            }
        } else {
            lemma_word_ranges(s, word, k + 1);
            assert(list == word_ranges(s, word, k + 1));
        }
    }
}

proof fn lemma_ordered_sorts(list: Seq<Range>)
    requires
        ordered(list),
        none_empty(list),
    ensures
        list.sort_by(by_place()) == list,
        apart(list) == list,
{
    place_is_total();
    list.lemma_sort_by_ensures(by_place());
    assert(sorted_by(list, by_place())) by {
        assert forall|i: int, j: int| 0 <= i < j < list.len() implies #[trigger] by_place()(
            list[i],
            list[j],
        ) by {
            assert(list[i].0 < list[i].1 <= list[j].0);
        }
    }
    lemma_sorted_unique(list.sort_by(by_place()), list, by_place());
    lemma_ordered_apart(list);
}

proof fn lemma_ordered_apart(list: Seq<Range>)
    requires
        ordered(list),
    ensures
        apart(list) == list,
    decreases list.len(),
{
    if list.len() > 0 {
        let first = list.drop_last();
        assert forall|i: int| #![trigger first[i]] 0 <= i < first.len() implies first[i]
            == list[i] by {}
        assert(ordered(first));
        lemma_ordered_apart(first);
        assert(list[list.len() - 1] == list.last());
        if first.len() > 0 {
            assert(first.last() == list[list.len() - 2]);
        }
        assert(apart(list) =~= list);
    }
}

proof fn lemma_one_word_highlights(row: Seq<char>, term: Seq<char>, w: Seq<char>)
    requires
        is_ascii_chars(row),
        row.len() <= usize::MAX,
        is_ascii_word(w),
        !has_meta(lower(w)),
        words(term) == seq![w],
    ensures
        highlights(row, term) == word_ranges(lower(row), lower(w), 0),
{
    let s = lower(row);
    lemma_ascii_lower(row);
    lemma_ascii_lower(w);
    lemma_word_ranges(s, lower(w), 0);
    let list = word_ranges(s, lower(w), 0);
    lemma_ordered_sorts(list);
    assert(seq![w].drop_last() =~= seq![]);
    assert(ranges_of_words(s, seq![]) =~= seq![]);
    assert(ranges_of_words(s, seq![w]) =~= list);
}

/// A query of one word without wildcards highlights that word wherever it stands: every
/// highlighted part is the word, but for the case of its letters, and no other part holds it.
pub proof fn one_word_is_highlighted_everywhere(
    row: Seq<char>,
    term: Seq<char>,
    w: Seq<char>,
    color: Color,
    i: int,
)
    requires
        is_ascii_chars(row),
        row.len() <= usize::MAX,
        is_ascii_chars(term),
        words(term) == seq![w],
        !has_meta(w),
        0 <= i < highlighted_spans(row, term, color).len(),
    ensures
        ({
            let span = highlighted_spans(row, term, color)[i];
            if span.1 is Highlighted {
                lower(span.0) == lower(w)
            } else {
                !occurs(lower(span.0), lower(w))
            }
        }),
{
    lemma_ascii_words(term);
    assert(words(term)[0] == w);
    lemma_lower_keeps(w, '*');
    lemma_lower_keeps(w, '?');
    lemma_lower_keeps(w, '[');
    lemma_one_word_highlights(row, term, w);
    let s = lower(row);
    let list = highlights(row, term);
    lemma_ascii_lower(row);
    lemma_ascii_lower(w);
    lemma_ascii_sizes(row, 0);
    lemma_ascii_sizes(s, 0);
    lemma_word_ranges(s, lower(w), 0);
    lemma_highlights_ordered(row, term);
    ascii_results_can_be_shown(row, term);
    lemma_all_spans(row, list, color);
    let spans = highlighted_spans(row, term, color);
    let span = spans[i];
    assert(is_span_of(span, row, list, color));
    if span.1 is Highlighted {
        let j = choose|j: int|
            0 <= j < list.len() && span.0 == part(
                row,
                (#[trigger] list[j]).0 as int,
                list[j].1 as int,
            );
        assert(list[j].0 < list[j].1);
        lemma_ascii_part(row, list[j].0 as int, list[j].1 as int);
    } else {
        let (a, b) = choose|a: int, b: int|
            is_gap(list, a, b) && between_chars(row, a) && between_chars(row, b) && span.0
                == #[trigger] part(row, a, b);
        lemma_between_bound(row, b);
        lemma_ascii_part(row, a, b);
        if occurs(lower(span.0), lower(w)) {
            let here = s.subrange(a, b);
            let x = choose|x: int| occurs_at(here, lower(w), x);
            assert(s.subrange(a + x, a + x + lower(w).len()) =~= here.subrange(
                x,
                x + lower(w).len(),
            ));
            assert(occurs_at(s, lower(w), a + x));
            let k = choose|k: int|
                0 <= k < list.len() && (#[trigger] list[k]).0 <= a + x < list[k].1;
            assert(list[k].1 <= a || b <= list[k].0);
        }
    }
}

/// A list without the copies of a range at its end.
spec fn without_last(list: Seq<Range>, m: Range) -> Seq<Range>
    decreases list.len(),
{
    if list.len() > 0 && list.last() == m {
        without_last(list.drop_last(), m)
    } else {
        list
    }
}

proof fn lemma_without_last(list: Seq<Range>, m: Range)
    requires
        sorted_by(list, by_place()),
        none_empty(list),
        m.0 < m.1,
        list.len() > 0 ==> by_place()(list.last(), m),
    ensures
        ({
            let rest = without_last(list, m);
            &&& sorted_by(rest, by_place())
            &&& none_empty(rest)
            &&& rest.len() <= list.len()
            &&& list.len() > 0 && list.last() == m ==> rest.len() < list.len()
            &&& !rest.contains(m)
            &&& forall|r: Range| r != m ==> (#[trigger] rest.contains(r) <==> list.contains(r))
            &&& apart(list) == (if list.contains(m) && m.0 >= end_of(apart(rest)) {
                apart(rest).push(m)
            } else {
                apart(rest)
            })
        }),
    decreases list.len(),
{
    place_is_total();
    if list.len() > 0 && list.last() == m {
        let first = list.drop_last();
        assert forall|i: int| #![trigger first[i]] 0 <= i < first.len() implies first[i]
            == list[i] by {}
        assert(sorted_by(first, by_place())) by {
            assert forall|i: int, j: int| 0 <= i < j < first.len() implies #[trigger] by_place()(
                first[i],
                first[j],
            ) by {
                assert(by_place()(list[i], list[j]));
            }
        }
        if first.len() > 0 {
            assert(by_place()(list[list.len() - 2], list[list.len() - 1]));
            assert(first.last() == list[list.len() - 2]);
        }
        lemma_without_last(first, m);
        let rest = without_last(list, m);
        assert(list[list.len() - 1] == m);
        assert(list.contains(m));
        assert forall|r: Range| r != m implies (#[trigger] rest.contains(r) <==> list.contains(
            r,
        )) by {
            if list.contains(r) {
                let i = choose|i: int| 0 <= i < list.len() && list[i] == r;
                assert(first[i] == r);
            }
            if first.contains(r) {
                let i = choose|i: int| 0 <= i < first.len() && first[i] == r;
                assert(list[i] == r);
            }
        }
    } else {
        if list.contains(m) {
            let i = choose|i: int| 0 <= i < list.len() && list[i] == m;
            if i < list.len() - 1 {
                assert(by_place()(list[i], list[list.len() - 1]));
                assert(by_place()(m, list.last()));
                assert(by_place()(list.last(), m));
            }
            assert(list.last() == m);
        }
    }
}

/// What is taken from ranges in order depends only on which ranges there are.
proof fn lemma_same_apart(a: Seq<Range>, b: Seq<Range>)
    requires
        sorted_by(a, by_place()),
        sorted_by(b, by_place()),
        none_empty(a),
        none_empty(b),
        forall|r: Range| #[trigger] a.contains(r) <==> b.contains(r),
    ensures
        apart(a) == apart(b),
    decreases a.len(),
{
    place_is_total();
    if a.len() > 0 {
        let m = a.last();
        assert(a[a.len() - 1] == m);
        assert(a.contains(m));
        assert(b.contains(m));
        let i = choose|i: int| 0 <= i < b.len() && b[i] == m;
        let last = b[b.len() - 1];
        assert(b.contains(last));
        assert(a.contains(last));
        let j = choose|j: int| 0 <= j < a.len() && a[j] == last;
        assert(by_place()(last, m)) by {
            if j < a.len() - 1 {
                assert(by_place()(a[j], a[a.len() - 1]));
            }
        }
        assert(m.0 < m.1);
        assert(by_place()(m, m));
        lemma_without_last(a, m);
        lemma_without_last(b, m);
        let x = without_last(a, m);
        let y = without_last(b, m);
        assert forall|r: Range| #[trigger] x.contains(r) <==> y.contains(r) by {
            assert(a.contains(r) <==> b.contains(r));
        }
        lemma_same_apart(x, y);
    } else if b.len() > 0 {
        assert(b.contains(b[0]));
        assert(a.contains(b[0]));
    }
}

/// Two queries have the same words, but for the case of their letters.
pub open spec fn same_words(t1: Seq<char>, t2: Seq<char>) -> bool {
    &&& forall|i: int| 0 <= i < words(t1).len() ==> has_word(t2, lower(#[trigger] words(t1)[i]))
    &&& forall|i: int| 0 <= i < words(t2).len() ==> has_word(t1, lower(#[trigger] words(t2)[i]))
}

/// A query has a word, but for the case of its letters.
pub open spec fn has_word(term: Seq<char>, low: Seq<char>) -> bool {
    exists|k: int| 0 <= k < words(term).len() && lower(#[trigger] words(term)[k]) == low
}

proof fn lemma_same_sources(s: Seq<char>, t1: Seq<char>, t2: Seq<char>, r: Range)
    requires
        same_words(t1, t2),
        comes_from(s, words(t1), r),
    ensures
        comes_from(s, words(t2), r),
{
    let k = choose|k: int|
        0 <= k < words(t1).len() && ranges_of_word(s, lower(#[trigger] words(t1)[k])).contains(r);
    assert(has_word(t2, lower(words(t1)[k])));
    let j = choose|j: int|
        0 <= j < words(t2).len() && lower(#[trigger] words(t2)[j]) == lower(words(t1)[k]);
    assert(ranges_of_word(s, lower(words(t2)[j])).contains(r));
}

/// The order, the case and the repetition of the words of a query do not matter to what is
/// highlighted.
pub proof fn the_set_of_words_decides(
    row: Seq<char>,
    t1: Seq<char>,
    t2: Seq<char>,
    color: Color,
)
    requires
        size(lower(row)) <= usize::MAX,
        is_ascii_chars(t1),
        is_ascii_chars(t2),
        same_words(t1, t2),
    ensures
        words(t1).len() == 0 <==> words(t2).len() == 0,
        highlights(row, t1) == highlights(row, t2),
        row_fits(row, t1) == row_fits(row, t2),
        highlighted_spans(row, t1, color) == highlighted_spans(row, t2, color),
{
    let s = lower(row);
    let a = ranges_of_words(s, words(t1));
    let b = ranges_of_words(s, words(t2));
    lemma_ascii_term(t1);
    lemma_ascii_term(t2);
    lemma_none_empty(s, words(t1));
    lemma_none_empty(s, words(t2));
    lemma_sorted_ranges(a);
    lemma_sorted_ranges(b);
    let x = a.sort_by(by_place());
    let y = b.sort_by(by_place());
    assert forall|r: Range| #[trigger] x.contains(r) <==> y.contains(r) by {
        lemma_comes_from(s, words(t1), r);
        lemma_comes_from(s, words(t2), r);
        if comes_from(s, words(t1), r) {
            lemma_same_sources(s, t1, t2, r);
        }
        if comes_from(s, words(t2), r) {
            lemma_same_sources(s, t2, t1, r);
        }
    }
    lemma_same_apart(x, y);
    if words(t1).len() > 0 {
        assert(has_word(t2, lower(words(t1)[0])));
    }
    if words(t2).len() > 0 {
        assert(has_word(t1, lower(words(t2)[0])));
    }
}

} // verus!
