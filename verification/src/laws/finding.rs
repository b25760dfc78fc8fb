//! What holds of every place that a query finds in a path.

use crate::bytes::size;
use crate::laws::display::lemma_apart;
use crate::laws::highlighting::lemma_comes_from;
use crate::laws::texts::{
    all_of, trimming_can_leave_nothing, trimming_the_front_takes_it_alone,
};
use crate::patterns::{accepts, syntax_error};
use crate::text::{lower, occurs_at, words, CharClass};
use crate::tui::highlight::{
    apart, are_offsets, by_place, end_of, highlight_pattern, highlights, name_start, pattern_ranges,
    place_is_total, range, ranges_of_word, ranges_of_words, shortest, word_ranges, Range,
};
use vstd::prelude::*;
use vstd::relations::sorted_by;

verus! {

/// The bytes of a text from one character up to another.
pub open spec fn bytes_of(s: Seq<char>, i: int, j: int) -> Range {
    (size(s.take(i)) as usize, size(s.take(j)) as usize)
}

/// The offsets of the characters of a text count the bytes before each, and at last all of them.
pub proof fn offsets_of_characters_count_bytes(s: Seq<char>, offsets: Seq<usize>, i: int)
    requires
        are_offsets(s, offsets),
        0 <= i <= s.len(),
    ensures
        offsets.len() == s.len() + 1,
        offsets[i] == size(s.take(i)),
{
}

/// A word is found at the first place where it stands, and from there on behind where it was
/// found; where it stands nowhere, nothing is found.
pub proof fn words_are_found_from_the_left(s: Seq<char>, word: Seq<char>, k: int, at: int)
    requires
        0 <= k <= at,
        word.len() > 0,
        forall|i: int| k <= i < at ==> !#[trigger] occurs_at(s, word, i),
    ensures
        occurs_at(s, word, at) ==> word_ranges(s, word, k) == seq![
            bytes_of(s, at, at + word.len()),
        ] + word_ranges(s, word, at + word.len()),
        at > s.len() ==> word_ranges(s, word, k) == Seq::<Range>::empty(),
    decreases at - k,
{
    if k < at {
        assert(!occurs_at(s, word, k));
        words_are_found_from_the_left(s, word, k + 1, at);
    }
}

/// A part of a text is the shortest from its start that a pattern accepts.
pub open spec fn is_shortest(s: Seq<char>, pattern: Seq<char>, i: int, e: int) -> bool {
    &&& 0 <= i < e <= s.len()
    &&& accepts(pattern, s.subrange(i, e))
    &&& forall|x: int| i < x < e ==> !accepts(pattern, #[trigger] s.subrange(i, x))
}

proof fn lemma_least(s: Seq<char>, pattern: Seq<char>, k: int, e: int)
    requires
        0 <= k < e,
    ensures
        match shortest(s, pattern, k, e) {
            Some(end) => e <= end <= s.len() && accepts(pattern, s.subrange(k, end)) && forall|
                x: int,
            |
                e <= x < end ==> !accepts(pattern, #[trigger] s.subrange(k, x)),
            None => forall|x: int|
                e <= x <= s.len() ==> !accepts(pattern, #[trigger] s.subrange(k, x)),
        },
    decreases s.len() - e + 1,
{
    if e <= s.len() && !accepts(pattern, s.subrange(k, e)) {
        lemma_least(s, pattern, k, e + 1);
    }
}

/// A pattern finds, from every character on, the shortest part that it accepts, if there is one;
/// and it finds nothing else.
pub proof fn patterns_find_shortest_parts(s: Seq<char>, pattern: Seq<char>, k: int, r: Range)
    requires
        0 <= k,
    ensures
        pattern_ranges(s, pattern, k).contains(r) <==> exists|i: int, e: int|
            k <= i && #[trigger] is_shortest(s, pattern, i, e) && r == bytes_of(s, i, e),
    decreases s.len() - k,
{
    if k < s.len() {
        patterns_find_shortest_parts(s, pattern, k + 1, r);
        lemma_least(s, pattern, k, k + 1);
        let rest = pattern_ranges(s, pattern, k + 1);
        let all = pattern_ranges(s, pattern, k);
        let first = match shortest(s, pattern, k, k + 1) {
            Some(e) => seq![range(s, k, e)],
            None => seq![],
        };
        assert(all == first + rest);
        if all.contains(r) {
            let j = choose|j: int| 0 <= j < all.len() && all[j] == r;
            if j < first.len() {
                let e = shortest(s, pattern, k, k + 1)->0;
                assert(is_shortest(s, pattern, k, e));
                assert(r == bytes_of(s, k, e));
            } else {
                assert(rest[j - first.len()] == r);
                assert(rest.contains(r));
                let (i, e) = choose|i: int, e: int|
                    k + 1 <= i && #[trigger] is_shortest(s, pattern, i, e) && r == bytes_of(
                        s,
                        i,
                        e,
                    );
                assert(is_shortest(s, pattern, i, e));
            }
        }
        if exists|i: int, e: int|
            k <= i && #[trigger] is_shortest(s, pattern, i, e) && r == bytes_of(s, i, e) {
            let (i, e) = choose|i: int, e: int|
                k <= i && #[trigger] is_shortest(s, pattern, i, e) && r == bytes_of(s, i, e);
            if i > k {
                assert(rest.contains(r));
                let j = choose|j: int| 0 <= j < rest.len() && rest[j] == r;
                assert(all[first.len() + j] == r);
            } else {
                let end = shortest(s, pattern, k, k + 1)->0;
                assert(accepts(pattern, s.subrange(k, e)));
                assert(shortest(s, pattern, k, k + 1) is Some);
                if end < e {
                    assert(!accepts(pattern, s.subrange(k, end)));
                }
                if e < end {
                    assert(!accepts(pattern, s.subrange(k, e)));
                }
                assert(all[0] == r);
            }
        }
    }
}

/// The file name of a text starts behind its last `/`, or with the text if there is none.
pub proof fn the_name_starts_behind_the_last_slash(dir: Seq<char>, name: Seq<char>)
    requires
        !name.contains('/'),
    ensures
        name_start(dir + seq!['/'] + name) == dir.len() + 1,
        name_start(name) == 0,
    decreases name.len(),
{
    let s = dir + seq!['/'] + name;
    if name.len() == 0 {
        assert(s.last() == '/');
    } else {
        let first = name.drop_last();
        assert(name.contains(name.last()));
        assert(!first.contains('/')) by {
            if first.contains('/') {
                let i = choose|i: int| 0 <= i < first.len() && first[i] == '/';
                assert(name[i] == '/');
            }
        }
        the_name_starts_behind_the_last_slash(dir, first);
        assert(s.last() == name.last());
        assert(s.drop_last() =~= dir + seq!['/'] + first);
    }
}

/// A word with wildcards is looked for without the `*` in front, unless it is one `*` alone.
pub proof fn stars_in_front_are_not_looked_for(stars: Seq<char>, rest: Seq<char>)
    requires
        all_of(CharClass::Only('*'), stars),
        rest.len() > 0,
        rest[0] != '*',
    ensures
        highlight_pattern(stars + rest) == rest,
        highlight_pattern(seq!['*']) == seq!['*'],
        stars.len() > 1 ==> highlight_pattern(stars) == Seq::<char>::empty(),
{
    if stars.len() > 1 {
        assert(CharClass::Only('*').has(stars[0]));
        trimming_can_leave_nothing(stars, CharClass::Only('*'));
    }
    let word = stars + rest;
    if stars.len() > 0 {
        assert(CharClass::Only('*').has(stars[0]));
        assert(word[0] == '*');
        trimming_the_front_takes_it_alone(stars, rest, CharClass::Only('*'));
    } else {
        assert(word =~= rest);
    }
}

/// A word without wildcards is looked for in the whole path; one with wildcards is a pattern,
/// looked for in the whole path if it holds a `/`, and otherwise in the file name alone. A word
/// that is no pattern finds nothing.
pub proof fn wildcard_words_look_at_names(
    s: Seq<char>,
    dir: Seq<char>,
    name: Seq<char>,
    word: Seq<char>,
    r: Range,
)
    requires
        !name.contains('/'),
        s == dir + seq!['/'] + name || (s == name && dir.len() == 0),
    ensures
        ({
            let meta = word.contains('*') || word.contains('?') || word.contains('[');
            let pattern = highlight_pattern(word);
            let from = if word.contains('/') || s == name {
                0
            } else {
                dir.len() as int + 1
            };
            &&& !meta ==> ranges_of_word(s, word) == word_ranges(s, word, 0)
            &&& meta && pattern.len() > 0 && syntax_error(pattern) is None ==> (ranges_of_word(
                s,
                word,
            ).contains(r) <==> exists|i: int, e: int|
                from <= i && #[trigger] is_shortest(s, pattern, i, e) && r == bytes_of(s, i, e))
            &&& meta && (pattern.len() == 0 || syntax_error(pattern) is Some) ==> ranges_of_word(
                s,
                word,
            ) == Seq::<Range>::empty()
        }),
{
    the_name_starts_behind_the_last_slash(dir, name);
    let pattern = highlight_pattern(word);
    patterns_find_shortest_parts(s, pattern, 0, r);
    patterns_find_shortest_parts(s, pattern, dir.len() as int + 1, r);
}

/// Every word of a query is looked for, in lower case.
pub proof fn every_word_is_looked_for(s: Seq<char>, list: Seq<Seq<char>>, r: Range)
    ensures
        ranges_of_words(s, list).contains(r) <==> exists|k: int|
            0 <= k < list.len() && ranges_of_word(s, lower(#[trigger] list[k])).contains(r),
{
    lemma_comes_from(s, list, r);
}

/// One range covers where another begins: it begins no later, and no later ends if both begin at
/// one place, and it is that one or reaches beyond where that one begins.
pub open spec fn covers(h: Range, r: Range) -> bool {
    &&& h.0 < r.0 || (h.0 == r.0 && h.1 <= r.1)
    &&& h == r || r.0 < h.1
}

proof fn lemma_covered(list: Seq<Range>, k: int)
    requires
        sorted_by(list, by_place()),
        0 <= k < list.len(),
    ensures
        exists|i: int| 0 <= i < apart(list).len() && covers(#[trigger] apart(list)[i], list[k]),
    decreases list.len(),
{
    let first = list.drop_last();
    let taken = apart(first);
    let last = list.last();
    assert(sorted_by(first, by_place())) by {
        assert forall|i: int, j: int| 0 <= i < j < first.len() implies #[trigger] by_place()(
            first[i],
            first[j],
        ) by {
            assert(by_place()(list[i], list[j]));
        }
    }
    if k < first.len() {
        lemma_covered(first, k);
        let i = choose|i: int| 0 <= i < taken.len() && covers(#[trigger] taken[i], first[k]);
        assert(apart(list)[i] == taken[i]);
    } else if last.0 >= end_of(taken) {
        assert(apart(list)[taken.len() as int] == last);
    } else {
        let n = taken.len() - 1;
        let j = lemma_apart(first, n);
        assert(by_place()(list[j], list[list.len() - 1]));
        assert(covers(taken[n], last));
        assert(apart(list)[n] == taken[n]);
    }
}

/// Whatever a word of a query finds in a path is highlighted, unless something is that begins
/// before it, or with it and is no longer, and reaches over where it begins. And nothing else is
/// highlighted than what some word finds.
pub proof fn what_is_found_is_highlighted(row: Seq<char>, term: Seq<char>, r: Range)
    ensures
        (exists|k: int|
            0 <= k < words(term).len() && ranges_of_word(
                lower(row),
                lower(#[trigger] words(term)[k]),
            ).contains(r)) ==> exists|i: int|
            0 <= i < highlights(row, term).len() && covers(#[trigger] highlights(row, term)[i], r),
        highlights(row, term).contains(r) ==> exists|k: int|
            0 <= k < words(term).len() && ranges_of_word(
                lower(row),
                lower(#[trigger] words(term)[k]),
            ).contains(r),
{
    broadcast use vstd::seq_lib::group_to_multiset_ensures;

    let list = ranges_of_words(lower(row), words(term));
    every_word_is_looked_for(lower(row), words(term), r);
    place_is_total();
    list.lemma_sort_by_ensures(by_place());
    let sorted = list.sort_by(by_place());
    assert(sorted.contains(r) <==> sorted.to_multiset().count(r) > 0);
    assert(list.contains(r) <==> list.to_multiset().count(r) > 0);
    if list.contains(r) {
        let k = choose|k: int| 0 <= k < sorted.len() && sorted[k] == r;
        lemma_covered(sorted, k);
    }
    if highlights(row, term).contains(r) {
        let i = choose|i: int|
            0 <= i < highlights(row, term).len() && highlights(row, term)[i] == r;
        let k = lemma_apart(sorted, i);
        assert(sorted.contains(sorted[k]));
    }
}

/// What is highlighted comes in the order of the path, and no part of it twice.
pub proof fn highlights_do_not_overlap(row: Seq<char>, term: Seq<char>, i: int, j: int)
    requires
        size(lower(row)) <= usize::MAX,
        0 <= i < j < highlights(row, term).len(),
    ensures
        highlights(row, term)[i].0 <= highlights(row, term)[i].1 <= highlights(row, term)[j].0,
{
    crate::tui::highlight::lemma_highlights_ordered(row, term);
    let list = highlights(row, term);
    assert(list[i].0 <= list[i].1 && list[i].1 <= list[j].0);
}

} // verus!
