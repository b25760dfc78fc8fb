//! Highlighting: where the words of a query stand in a path, and the path in spans.

use crate::bytes::{
    after, before, between_chars, lemma_concat_boundary, lemma_encode_add, lemma_encode_injective,
    lemma_ends, lemma_parted_twice, len, middle, part, size, tail,
};
use crate::patterns::{accepts, syntax_error, Glob};
use crate::query::{has_glob_meta, has_meta};
use crate::text::{
    found_at, from_chars, has_char, lower, occurs_at, split_whitespace, strip_front, to_chars,
    to_lower, trim_front, words, CharClass,
};
use crate::tui::color::Color;
use crate::tui::span::{add_span, shown, Span, SpanStyle, SpanView};
use vstd::prelude::*;
use vstd::relations::{sorted_by, total_ordering};
use vstd::seq_lib::lemma_sorted_unique;
use vstd::utf8::{encode_scalar, encode_utf8};

verus! {

/// A range of byte offsets.
pub type Range = (usize, usize);

/// The byte offsets of a range of characters.
pub open spec fn range(s: Seq<char>, i: int, j: int) -> Range {
    (size(s.take(i)) as usize, size(s.take(j)) as usize)
}

/// The ranges of the occurrences of a word from `k` on that do not overlap.
pub open spec fn word_ranges(s: Seq<char>, word: Seq<char>, k: int) -> Seq<Range>
    decreases s.len() - k + 1,
{
    if k > s.len() {
        seq![]
    } else if occurs_at(s, word, k) {
        seq![range(s, k, k + word.len())] + word_ranges(
            s,
            word,
            k + if word.len() > 0 {
                word.len()
            } else {
                1
            },
        )
    } else {
        word_ranges(s, word, k + 1)
    }
}

/// The end of the shortest part from `k`, not ending before `e`, that a pattern accepts.
pub open spec fn shortest(s: Seq<char>, pattern: Seq<char>, k: int, e: int) -> Option<int>
    decreases s.len() - e + 1,
{
    if e > s.len() {
        None
    } else if accepts(pattern, s.subrange(k, e)) {
        Some(e)
    } else {
        shortest(s, pattern, k, e + 1)
    }
}

/// For every start from `k` on, the range of the shortest part that a pattern accepts.
pub open spec fn pattern_ranges(s: Seq<char>, pattern: Seq<char>, k: int) -> Seq<Range>
    decreases s.len() - k,
{
    if k >= s.len() {
        seq![]
    } else {
        (match shortest(s, pattern, k, k + 1) {
            Some(e) => seq![range(s, k, e)],
            None => seq![],
        }) + pattern_ranges(s, pattern, k + 1)
    }
}

/// Where the part behind the last `/` starts.
pub open spec fn name_start(s: Seq<char>) -> int
    decreases s.len(),
{
    if s.len() == 0 || s.last() == '/' {
        s.len() as int
    } else {
        name_start(s.drop_last())
    }
}

/// What a word with wildcards looks for: it need not start with `*`.
pub open spec fn highlight_pattern(word: Seq<char>) -> Seq<char> {
    if word[0] == '*' && word.len() > 1 {
        strip_front(word, CharClass::Only('*'))
    } else {
        word
    }
}

/// The ranges that one word highlights. A word with wildcards and without `/` looks only at the
/// part behind the last `/`.
pub open spec fn ranges_of_word(s: Seq<char>, word: Seq<char>) -> Seq<Range> {
    if has_meta(word) {
        let pattern = highlight_pattern(word);
        if pattern.len() == 0 || syntax_error(pattern) is Some {
            seq![]
        } else {
            pattern_ranges(
                s,
                pattern,
                if word.contains('/') {
                    0
                } else {
                    name_start(s)
                },
            )
        }
    } else {
        word_ranges(s, word, 0)
    }
}

/// The ranges that the words of a query highlight.
pub open spec fn ranges_of_words(s: Seq<char>, list: Seq<Seq<char>>) -> Seq<Range>
    decreases list.len(),
{
    if list.len() == 0 {
        seq![]
    } else {
        ranges_of_words(s, list.drop_last()) + ranges_of_word(s, lower(list.last()))
    }
}

/// The order of ranges: by start, then by end.
pub open spec fn by_place() -> spec_fn(Range, Range) -> bool {
    |a: Range, b: Range| a.0 < b.0 || (a.0 == b.0 && a.1 <= b.1)
}

/// Where the last range of a list ends.
pub open spec fn end_of(list: Seq<Range>) -> usize {
    if list.len() == 0 {
        0
    } else {
        list.last().1
    }
}

/// The ranges of a list that do not begin within one that was taken before.
pub open spec fn apart(list: Seq<Range>) -> Seq<Range>
    decreases list.len(),
{
    if list.len() == 0 {
        seq![]
    } else {
        let taken = apart(list.drop_last());
        if list.last().0 >= end_of(taken) {
            taken.push(list.last())
        } else {
            taken
        }
    }
}

/// The ranges of a text that a query highlights.
pub open spec fn highlights(text: Seq<char>, term: Seq<char>) -> Seq<Range> {
    apart(ranges_of_words(lower(text), words(term)).sort_by(by_place()))
}

/// The ranges of a list follow each other and do not overlap.
pub open spec fn ordered(list: Seq<Range>) -> bool {
    &&& forall|i: int| #![trigger list[i]] 0 <= i < list.len() ==> list[i].0 <= list[i].1
    &&& forall|i: int, j: int|
        #![trigger list[i], list[j]]
        0 <= i < j < list.len() ==> list[i].1 <= list[j].0
}

/// Every range of a list begins and ends between characters of the text.
pub open spec fn fit(text: Seq<char>, list: Seq<Range>) -> bool {
    forall|i: int|
        #![trigger list[i]]
        0 <= i < list.len() ==> between_chars(text, list[i].0 as int) && between_chars(
            text,
            list[i].1 as int,
        )
}

/// The spans of a text up to the end of the last range.
pub open spec fn spans_up_to(text: Seq<char>, list: Seq<Range>, color: Color) -> Seq<SpanView>
    decreases list.len(),
{
    if list.len() == 0 {
        seq![]
    } else {
        let before = list.drop_last();
        let (start, end) = list.last();
        let so_far = spans_up_to(text, before, color);
        (if start > end_of(before) {
            so_far.push((part(text, end_of(before) as int, start as int), SpanStyle::Raw))
        } else {
            so_far
        }).push((part(text, start as int, end as int), SpanStyle::Highlighted(color)))
    }
}

/// The spans of a text with some ranges highlighted.
pub open spec fn spans_with(text: Seq<char>, list: Seq<Range>, color: Color) -> Seq<SpanView> {
    if end_of(list) < size(text) {
        spans_up_to(text, list, color).push((after(text, end_of(list) as int), SpanStyle::Raw))
    } else {
        spans_up_to(text, list, color)
    }
}

/// The spans of a text with what a query finds in it highlighted.
pub open spec fn highlighted_spans(text: Seq<char>, term: Seq<char>, color: Color) -> Seq<SpanView> {
    if words(term).len() == 0 {
        seq![(text, SpanStyle::Raw)]
    } else {
        spans_with(text, highlights(text, term), color)
    }
}

/// How many bytes a character takes.
fn char_size(c: char) -> (r: usize)
    ensures
        r == size(seq![c]),
        1 <= r <= 4,
{
    proof {
        reveal_with_fuel(encode_utf8, 2);
        assert(encode_utf8(seq![c]) =~= encode_scalar(c as u32));
    }
    let v = c as u32;
    if v < 0x80 {
        1
    } else if v < 0x800 {
        2
    } else if v < 0x10000 {
        3
    } else {
        4
    }
}

/// The bytes of a range of characters are its part of the text.
pub proof fn lemma_take_size(s: Seq<char>, i: int, j: int)
    requires
        0 <= i <= j <= s.len(),
    ensures
        size(s.take(j)) == size(s.take(i)) + size(s.subrange(i, j)),
        size(s.take(i)) <= size(s.take(j)) <= size(s),
        between_chars(s, size(s.take(i)) as int),
        between_chars(s, size(s.take(j)) as int),
        part(s, size(s.take(i)) as int, size(s.take(j)) as int) == s.subrange(i, j),
{
    lemma_encode_add(s.take(i), s.subrange(i, j));
    lemma_encode_add(s.take(j), s.skip(j));
    lemma_encode_add(s.take(i), s.skip(i));
    assert(s.take(j) =~= s.take(i) + s.subrange(i, j));
    assert(s =~= s.take(j) + s.skip(j));
    assert(s =~= s.take(i) + s.skip(i));
    lemma_concat_boundary(s.take(i), s.skip(i));
    lemma_concat_boundary(s.take(j), s.skip(j));
    let a = size(s.take(i)) as int;
    let b = size(s.take(j)) as int;
    lemma_parted_twice(s, a, b);
    assert(encode_utf8(s).subrange(a, b) =~= encode_utf8(s.subrange(i, j)));
    lemma_encode_injective(part(s, a, b), s.subrange(i, j));
}

/// The byte offset of every character of a text and of its end.
pub open spec fn are_offsets(s: Seq<char>, offsets: Seq<usize>) -> bool {
    &&& offsets.len() == s.len() + 1
    &&& forall|k: int| #![trigger offsets[k]] 0 <= k <= s.len() ==> offsets[k] == size(s.take(k))
}

/// Finds the byte offset of every character and of the end.
pub fn char_boundaries(s: &Vec<char>) -> (r: Vec<usize>)
    ensures
        are_offsets(s@, r@),
{
    let total = len(from_chars(s).as_str());
    let mut r: Vec<usize> = Vec::new();
    let mut at: usize = 0;
    let mut i: usize = 0;
    assert(s@.take(0) =~= seq![]);
    while i < s.len()
        invariant
            i <= s@.len(),
            total == size(s@),
            at == size(s@.take(i as int)),
            r@.len() == i,
            forall|k: int| #![trigger r@[k]] 0 <= k < i ==> r@[k] == size(s@.take(k)),
        decreases s@.len() - i,
    {
        r.push(at);
        proof {
            lemma_take_size(s@, i as int, i + 1);
            assert(s@.subrange(i as int, i + 1) =~= seq![s@[i as int]]);
        }
        at = at + char_size(s[i]);
        i += 1;
    }
    r.push(at);
    r
}

/// Adds the ranges of the occurrences of a word that do not overlap.
fn collect_word_matches(
    s: &Vec<char>,
    offsets: &Vec<usize>,
    word: &Vec<char>,
    matches: &mut Vec<Range>,
)
    requires
        are_offsets(s@, offsets@),
    ensures
        final(matches)@ == old(matches)@ + word_ranges(s@, word@, 0),
{
    let mut k: usize = 0;
    assert(matches@ + word_ranges(s@, word@, 0) =~= old(matches)@ + word_ranges(s@, word@, 0));
    loop
        invariant_except_break
            matches@ + word_ranges(s@, word@, k as int) == old(matches)@ + word_ranges(
                s@,
                word@,
                0,
            ),
        invariant
            k <= s@.len() == s.len(),
            are_offsets(s@, offsets@),
        ensures
            matches@ == old(matches)@ + word_ranges(s@, word@, 0),
        decreases s@.len() - k,
    {
        let found = found_at(s, word, k);
        let ghost m0 = matches@;
        if found {
            matches.push((offsets[k], offsets[k + word.len()]));
            assert(matches@ =~= m0.push(range(s@, k as int, k + word@.len())));
        }
        let step = if found && word.len() > 0 {
            word.len()
        } else {
            1
        };
        assert(m0 + word_ranges(s@, word@, k as int) =~= matches@ + word_ranges(
            s@,
            word@,
            k + step,
        ));
        if step > s.len() - k {
            assert(word_ranges(s@, word@, k + step) =~= seq![]);
            assert(matches@ + word_ranges(s@, word@, k + step) =~= matches@);
            break;
        }
        k = k + step;
    }
}

/// The end of the shortest part from `k` that a pattern accepts.
fn shortest_end(glob: &Glob, text: &str, s: &Vec<char>, offsets: &Vec<usize>, k: usize) -> (r:
    Option<usize>)
    requires
        text@ == s@,
        k < s@.len(),
        are_offsets(s@, offsets@),
    ensures
        match r {
            Some(e) => k < e <= s@.len() && shortest(s@, glob@, k as int, k + 1) == Some(e as int),
            None => shortest(s@, glob@, k as int, k + 1) is None,
        },
{
    let mut e: usize = k;
    while e < s.len()
        invariant
            text@ == s@,
            k <= e <= s@.len(),
            are_offsets(s@, offsets@),
            shortest(s@, glob@, k as int, k + 1) == shortest(s@, glob@, k as int, e + 1),
        decreases s@.len() - e,
    {
        e += 1;
        proof {
            lemma_take_size(s@, k as int, e as int);
            assert(offsets@[k as int] == size(s@.take(k as int)));
            assert(offsets@[e as int] == size(s@.take(e as int)));
        }
        if glob.matches(middle(text, offsets[k], offsets[e])) {
            return Some(e);
        }
    }
    None
}

/// Adds, for every start, the range of the shortest part that a pattern accepts.
pub fn collect_wildcard_matches(
    s: &Vec<char>,
    offsets: &Vec<usize>,
    from: usize,
    pattern: &Vec<char>,
    matches: &mut Vec<Range>,
)
    requires
        from <= s@.len(),
        are_offsets(s@, offsets@),
    ensures
        final(matches)@ == old(matches)@ + (if pattern@.len() == 0 || syntax_error(
            pattern@,
        ) is Some {
            seq![]
        } else {
            pattern_ranges(s@, pattern@, from as int)
        }),
{
    if pattern.len() == 0 {
        assert(matches@ =~= old(matches)@ + Seq::<Range>::empty());
        return;
    }
    let glob = match Glob::new(from_chars(pattern).as_str()) {
        Ok(glob) => glob,
        Err(_) => {
            assert(matches@ =~= old(matches)@ + Seq::<Range>::empty());
            return;
        },
    };
    let text = from_chars(s);
    let mut k: usize = from;
    let ghost all = old(matches)@ + pattern_ranges(s@, pattern@, from as int);
    while k < s.len()
        invariant
            k <= s@.len(),
            text@ == s@,
            are_offsets(s@, offsets@),
            glob@ == pattern@,
            all == matches@ + pattern_ranges(s@, pattern@, k as int),
        decreases s@.len() - k,
    {
        let ghost m0 = matches@;
        if let Some(e) = shortest_end(&glob, text.as_str(), s, offsets, k) {
            matches.push((offsets[k], offsets[e]));
            assert(matches@ =~= m0.push(range(s@, k as int, e as int)));
        }
        k += 1;
        assert(m0 + pattern_ranges(s@, pattern@, k - 1) =~= matches@ + pattern_ranges(
            s@,
            pattern@,
            k as int,
        ));
    }
    assert(matches@ + pattern_ranges(s@, pattern@, k as int) =~= matches@);
}

/// Where the part behind the last `/` starts.
fn find_name_start(s: &Vec<char>) -> (r: usize)
    ensures
        r == name_start(s@),
        r <= s@.len(),
{
    let mut i: usize = s.len();
    assert(s@.take(i as int) =~= s@);
    while i > 0 && s[i - 1] != '/'
        invariant
            i <= s@.len(),
            name_start(s@) == name_start(s@.take(i as int)),
        decreases i,
    {
        assert(s@.take(i as int).drop_last() =~= s@.take(i - 1));
        i -= 1;
    }
    i
}

/// Finds the ranges that the words of a query highlight.
fn find_ranges(s: &Vec<char>, list: &Vec<Vec<char>>) -> (r: Vec<Range>)
    ensures
        r@ == ranges_of_words(s@, list@.map_values(|w: Vec<char>| w@)),
{
    let offsets = char_boundaries(s);
    let name = find_name_start(s);
    let mut matches: Vec<Range> = Vec::new();
    let mut i: usize = 0;
    let ghost terms = list@.map_values(|w: Vec<char>| w@);
    assert(matches@ =~= ranges_of_words(s@, terms.take(0)));
    while i < list.len()
        invariant
            i <= list@.len(),
            are_offsets(s@, offsets@),
            name == name_start(s@),
            name <= s@.len(),
            terms == list@.map_values(|w: Vec<char>| w@),
            matches@ == ranges_of_words(s@, terms.take(i as int)),
        decreases list@.len() - i,
    {
        let word = to_lower(&list[i]);
        assert(terms.take(i + 1).drop_last() =~= terms.take(i as int));
        assert(terms.take(i + 1).last() == list@[i as int]@);
        if has_glob_meta(&word) {
            let pattern = if word[0] == '*' && word.len() > 1 {
                trim_front(&word, CharClass::Only('*'))
            } else {
                to_chars(from_chars(&word).as_str())
            };
            let from = if has_char(&word, '/') {
                0
            } else {
                name
            };
            collect_wildcard_matches(s, &offsets, from, &pattern, &mut matches);
        } else {
            collect_word_matches(s, &offsets, &word, &mut matches);
        }
        i += 1;
    }
    assert(terms.take(i as int) =~= terms);
    matches
}

/// The order of ranges is total.
pub proof fn place_is_total()
    ensures
        total_ordering(by_place()),
{
}

/// Puts ranges in order.
fn sort_ranges(list: &Vec<Range>) -> (r: Vec<Range>)
    ensures
        r@ == list@.sort_by(by_place()),
{
    let mut r: Vec<Range> = Vec::new();
    let mut i: usize = 0;
    proof {
        place_is_total();
        assert(list@.take(0) =~= r@);
    }
    while i < list.len()
        invariant
            i <= list@.len(),
            r@.len() == i,
            sorted_by(r@, by_place()),
            r@.to_multiset() == list@.take(i as int).to_multiset(),
        decreases list@.len() - i,
    {
        let x = list[i];
        let mut at: usize = r.len();
        while at > 0 && (x.0 < r[at - 1].0 || (x.0 == r[at - 1].0 && x.1 < r[at - 1].1))
            invariant
                at <= r@.len(),
                sorted_by(r@, by_place()),
                forall|k: int| #![trigger r@[k]] at <= k < r@.len() ==> by_place()(x, r@[k]),
            decreases at,
        {
            at -= 1;
        }
        let ghost r0 = r@;
        r.insert(at, x);
        proof {
            broadcast use vstd::seq_lib::group_to_multiset_ensures;
            assert forall|k: int| #![trigger r0[k]] 0 <= k < at implies by_place()(r0[k], x) by {
                if k < at - 1 {
                    assert(by_place()(r0[k], r0[at - 1]));
                }
            }
            assert forall|j: int, k: int| 0 <= j < k < r@.len() implies #[trigger] by_place()(
                r@[j],
                r@[k],
            ) by {
                let a = if j < at { j } else { j - 1 };
                let b = if k < at { k } else { k - 1 };
                if j != at && k != at {
                    assert(by_place()(r0[a], r0[b]));
                }
            }
            assert(list@.take(i + 1) =~= list@.take(i as int).push(x));
        }
        i += 1;
    }
    proof {
        assert(list@.take(i as int) =~= list@);
        list@.lemma_sort_by_ensures(by_place());
        lemma_sorted_unique(r@, list@.sort_by(by_place()), by_place());
    }
    r
}

/// Takes the ranges that do not begin within one that was taken before.
fn keep_apart(list: &Vec<Range>) -> (r: Vec<Range>)
    ensures
        r@ == apart(list@),
{
    let mut r: Vec<Range> = Vec::new();
    let mut end: usize = 0;
    let mut i: usize = 0;
    assert(r@ =~= apart(list@.take(0)));
    while i < list.len()
        invariant
            i <= list@.len(),
            r@ == apart(list@.take(i as int)),
            end == end_of(r@),
        decreases list@.len() - i,
    {
        assert(list@.take(i + 1).drop_last() =~= list@.take(i as int));
        if list[i].0 >= end {
            r.push(list[i]);
            end = list[i].1;
        }
        i += 1;
    }
    assert(list@.take(i as int) =~= list@);
    r
}

/// Finds the ranges of a text that a query highlights.
pub fn find_highlights(text: &str, term: &str) -> (r: Vec<Range>)
    ensures
        r@ == highlights(text@, term@),
        ordered(r@),
{
    let s = to_lower(&to_chars(text));
    let _total = len(from_chars(&s).as_str());
    let list = split_whitespace(&to_chars(term));
    proof {
        lemma_highlights_ordered(text@, term@);
    }
    keep_apart(&sort_ranges(&find_ranges(&s, &list)))
}

/// Every range of a list ends not before it begins, and lies between characters of a text.
pub open spec fn sound(s: Seq<char>, list: Seq<Range>) -> bool {
    &&& fit(s, list)
    &&& forall|i: int| #![trigger list[i]] 0 <= i < list.len() ==> list[i].0 <= list[i].1
}

proof fn lemma_range_sound(s: Seq<char>, i: int, j: int)
    requires
        0 <= i <= j <= s.len(),
        size(s) <= usize::MAX,
    ensures
        range(s, i, j).0 <= range(s, i, j).1,
        between_chars(s, range(s, i, j).0 as int),
        between_chars(s, range(s, i, j).1 as int),
{
    lemma_take_size(s, i, j);
}

proof fn lemma_word_ranges_sound(s: Seq<char>, word: Seq<char>, k: int)
    requires
        0 <= k,
        size(s) <= usize::MAX,
    ensures
        sound(s, word_ranges(s, word, k)),
    decreases s.len() - k + 1,
{
    if k <= s.len() {
        if occurs_at(s, word, k) {
            lemma_range_sound(s, k, k + word.len());
            lemma_word_ranges_sound(
                s,
                word,
                k + if word.len() > 0 {
                    word.len()
                } else {
                    1
                },
            );
        } else {
            lemma_word_ranges_sound(s, word, k + 1);
        }
    }
}

/// The shortest part that a pattern accepts is one that it accepts.
pub proof fn lemma_shortest(s: Seq<char>, pattern: Seq<char>, k: int, e: int)
    ensures
        shortest(s, pattern, k, e) matches Some(end) ==> e <= end <= s.len() && accepts(
            pattern,
            s.subrange(k, end),
        ),
    decreases s.len() - e + 1,
{
    if e <= s.len() && !accepts(pattern, s.subrange(k, e)) {
        lemma_shortest(s, pattern, k, e + 1);
    }
}

proof fn lemma_pattern_ranges_sound(s: Seq<char>, pattern: Seq<char>, k: int)
    requires
        0 <= k,
        size(s) <= usize::MAX,
    ensures
        sound(s, pattern_ranges(s, pattern, k)),
    decreases s.len() - k,
{
    if k < s.len() {
        lemma_shortest(s, pattern, k, k + 1);
        if let Some(e) = shortest(s, pattern, k, k + 1) {
            lemma_range_sound(s, k, e);
        }
        lemma_pattern_ranges_sound(s, pattern, k + 1);
    }
}

/// The part behind the last `/` starts within the text.
pub proof fn lemma_name_start(s: Seq<char>)
    ensures
        0 <= name_start(s) <= s.len(),
    decreases s.len(),
{
    if s.len() > 0 && s.last() != '/' {
        lemma_name_start(s.drop_last());
    }
}

proof fn lemma_ranges_sound(s: Seq<char>, list: Seq<Seq<char>>)
    requires
        size(s) <= usize::MAX,
    ensures
        sound(s, ranges_of_words(s, list)),
    decreases list.len(),
{
    if list.len() > 0 {
        lemma_ranges_sound(s, list.drop_last());
        let word = lower(list.last());
        lemma_name_start(s);
        lemma_word_ranges_sound(s, word, 0);
        lemma_pattern_ranges_sound(s, highlight_pattern(word), 0);
        lemma_pattern_ranges_sound(s, highlight_pattern(word), name_start(s));
    }
}

proof fn lemma_apart_ordered(s: Seq<char>, list: Seq<Range>)
    requires
        sound(s, list),
    ensures
        ordered(apart(list)),
        sound(s, apart(list)),
    decreases list.len(),
{
    if list.len() > 0 {
        assert forall|i: int| #![trigger list.drop_last()[i]]
            0 <= i < list.len() - 1 implies list.drop_last()[i] == list[i] by {}
        assert(sound(s, list.drop_last()));
        lemma_apart_ordered(s, list.drop_last());
        assert(list.last() == list[list.len() - 1]);
        let taken = apart(list.drop_last());
        if list.last().0 >= end_of(taken) {
            let all = taken.push(list.last());
            assert forall|i: int, j: int| #![trigger all[i], all[j]]
                0 <= i < j < all.len() implies all[i].1 <= all[j].0 by {
                if j < taken.len() {
                    assert(taken[i].1 <= taken[j].0);
                } else {
                    let last = taken[taken.len() - 1];
                    assert(last.0 <= last.1);
                    if i < taken.len() - 1 {
                        assert(taken[i].1 <= last.0);
                    }
                }
            }
        }
    }
}

/// The ranges that a query highlights follow each other and do not overlap, and lie between
/// characters of the text in lower case.
pub proof fn lemma_highlights_ordered(text: Seq<char>, term: Seq<char>)
    requires
        size(lower(text)) <= usize::MAX,
    ensures
        ordered(highlights(text, term)),
        fit(lower(text), highlights(text, term)),
{
    let list = ranges_of_words(lower(text), words(term));
    lemma_ranges_sound(lower(text), words(term));
    place_is_total();
    list.lemma_sort_by_ensures(by_place());
    let sorted = list.sort_by(by_place());
    assert forall|i: int| #![trigger sorted[i]] 0 <= i < sorted.len() implies sorted[i].0
        <= sorted[i].1 && between_chars(lower(text), sorted[i].0 as int) && between_chars(
        lower(text),
        sorted[i].1 as int,
    ) by {
        assert(sorted.contains(sorted[i]));
        assert(list.contains(sorted[i]));
        let k = choose|k: int| 0 <= k < list.len() && list[k] == sorted[i];
        assert(list[k] == sorted[i]);
    }
    lemma_apart_ordered(lower(text), sorted);
}

/// Shows a text with some ranges highlighted.
pub fn spans_for(text: &str, list: &Vec<Range>, color: Color) -> (r: Vec<Span>)
    requires
        ordered(list@),
        fit(text@, list@),
    ensures
        shown(r@) == spans_with(text@, list@, color),
{
    let mut spans: Vec<Span> = Vec::new();
    let mut last_end: usize = 0;
    let mut i: usize = 0;
    proof {
        lemma_ends(text@);
    }
    assert(shown(spans@) =~= spans_up_to(text@, list@.take(0), color));
    while i < list.len()
        invariant
            i <= list@.len(),
            ordered(list@),
            fit(text@, list@),
            last_end == end_of(list@.take(i as int)),
            between_chars(text@, last_end as int),
            shown(spans@) == spans_up_to(text@, list@.take(i as int), color),
        decreases list@.len() - i,
    {
        let (start, end) = list[i];
        assert(list@.take(i + 1).drop_last() =~= list@.take(i as int));
        assert(i > 0 ==> list@.take(i as int).last() == list@[i - 1]);
        if start > last_end {
            add_span(&mut spans, middle(text, last_end, start), SpanStyle::Raw);
        }
        add_span(&mut spans, middle(text, start, end), SpanStyle::Highlighted(color));
        last_end = end;
        i += 1;
    }
    assert(list@.take(i as int) =~= list@);
    if last_end < len(text) {
        add_span(&mut spans, tail(text, last_end), SpanStyle::Raw);
    }
    spans
}

/// Tells whether every range begins and ends between characters of the text.
fn ranges_fit(text: &str, list: &Vec<Range>) -> (r: bool)
    ensures
        r == fit(text@, list@),
{
    let mut i: usize = 0;
    while i < list.len()
        invariant
            i <= list@.len(),
            forall|k: int|
                #![trigger list@[k]]
                0 <= k < i ==> between_chars(text@, list@[k].0 as int) && between_chars(
                    text@,
                    list@[k].1 as int,
                ),
        decreases list@.len() - i,
    {
        let (start, end) = list[i];
        if !text.is_char_boundary(start) || !text.is_char_boundary(end) {
            return false;
        }
        i += 1;
    }
    true
}

/// Shows a text with what a query finds in it highlighted.
///
/// The words are found in the lower case of the text. Where that takes other bytes than the text
/// itself, a range can end within a character of the text: then nothing can be shown.
pub fn create_highlighted_spans(text: &str, term: &str, highlight_color: Color) -> (r: Option<
    Vec<Span>,
>)
    ensures
        match r {
            Some(spans) => {
                &&& words(term@).len() == 0 || fit(text@, highlights(text@, term@))
                &&& shown(spans@) == highlighted_spans(text@, term@, highlight_color)
            },
            None => words(term@).len() > 0 && !fit(text@, highlights(text@, term@)),
        },
{
    let list = split_whitespace(&to_chars(term));
    assert(list@.map_values(|w: Vec<char>| w@).len() == list@.len());
    if list.len() == 0 {
        let mut spans: Vec<Span> = Vec::new();
        add_span(&mut spans, text, SpanStyle::Raw);
        assert(shown(spans@) =~= seq![(text@, SpanStyle::Raw)]);
        return Some(spans);
    }
    let found = find_highlights(text, term);
    if ranges_fit(text, &found) {
        Some(spans_for(text, &found, highlight_color))
    } else {
        None
    }
}

} // verus!
