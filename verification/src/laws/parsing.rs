//! What holds of every query text.

use crate::query::{
    all_scopes, all_terms, answers, basename, dotted, empty_plan, ext_mark, is_ending, is_scope,
    lists_fit, no_term, normalized, plan_of, plus_token, some_ending, PlanView,
};
use crate::text::{
    ascii_lower, is_white_space, lemma_words, lemma_words_nonempty, lower, strip_front, words,
    CharClass,
};
use vstd::prelude::*;
use vstd::utf8::is_ascii_chars;

verus! {

/// A plan that asks for what both plans ask for.
pub open spec fn both(a: PlanView, b: PlanView) -> PlanView {
    PlanView {
        include_terms: a.include_terms + b.include_terms,
        exclude_terms: a.exclude_terms + b.exclude_terms,
        ext_filters: a.ext_filters + b.ext_filters,
        path_globs: a.path_globs + b.path_globs,
    }
}

proof fn lemma_token_adds(plan: PlanView, token: Seq<char>)
    ensures
        plus_token(plan, token) == both(plan, plus_token(empty_plan(), token)),
{
    assert(plus_token(plan, token) =~= both(plan, plus_token(empty_plan(), token)));
}

proof fn lemma_tokens_combine(a: Seq<Seq<char>>, b: Seq<Seq<char>>)
    ensures
        plan_of(a + b) == both(plan_of(a), plan_of(b)),
    decreases b.len(),
{
    if b.len() == 0 {
        assert(a + b =~= a);
        assert(both(plan_of(a), empty_plan()) =~= plan_of(a));
    } else {
        lemma_tokens_combine(a, b.drop_last());
        assert((a + b).drop_last() =~= a + b.drop_last());
        lemma_token_adds(plan_of(a + b.drop_last()), b.last());
        lemma_token_adds(plan_of(b.drop_last()), b.last());
        let last = plus_token(empty_plan(), b.last());
        assert(both(both(plan_of(a), plan_of(b.drop_last())), last) =~= both(
            plan_of(a),
            both(plan_of(b.drop_last()), last),
        ));
    }
}

/// Two texts that white space parts have the words of both.
pub proof fn lemma_words_combine(a: Seq<char>, b: Seq<char>)
    requires
        a.len() == 0 || is_white_space(a.last()) || b.len() == 0 || is_white_space(b[0]),
    ensures
        words(a + b) == words(a) + words(b),
    decreases b.len(),
{
    if b.len() == 0 {
        assert(a + b =~= a);
        assert(words(a) + words(b) =~= words(a));
    } else {
        let first = b.drop_last();
        lemma_words_combine(a, first);
        assert((a + b).drop_last() =~= a + first);
        assert((a + b).last() == b.last());
        if is_white_space(b.last()) {
        } else if b.len() == 1 {
            assert(first =~= seq![]);
            assert(a + b == a.push(b.last()));
            assert(words(b) =~= seq![seq![b.last()]]);
            assert(words(a + b) =~= words(a) + words(b));
        } else {
            assert((a + b)[(a + b).len() - 2] == b[b.len() - 2]);
            if is_white_space(b[b.len() - 2]) {
                assert(words(a + b) =~= words(a) + words(b));
            } else {
                assert(first.last() == b[b.len() - 2]);
                lemma_words_nonempty(first);
                let w = words(first);
                assert((words(a) + w).drop_last() =~= words(a) + w.drop_last());
                assert((words(a) + w).last() == w.last());
                assert(words(a + b) =~= words(a) + words(b));
            }
        }
    }
}

/// Two queries with a blank between them ask for what both ask for.
pub proof fn queries_combine(a: Seq<char>, b: Seq<char>)
    ensures
        plan_of(words(a + seq![' '] + b)) == both(plan_of(words(a)), plan_of(words(b))),
{
    let blank = a + seq![' '];
    lemma_words_combine(a, seq![' ']);
    blank_queries_ask_for_nothing(seq![' ']);
    assert(words(a) + words(seq![' ']) =~= words(a));
    lemma_words_combine(blank, b);
    lemma_tokens_combine(words(a), words(b));
}

/// A query of white space alone asks for nothing.
pub proof fn blank_queries_ask_for_nothing(s: Seq<char>)
    requires
        forall|i: int| #![trigger s[i]] 0 <= i < s.len() ==> is_white_space(s[i]),
    ensures
        words(s) == Seq::<Seq<char>>::empty(),
        plan_of(words(s)) == empty_plan(),
    decreases s.len(),
{
    if s.len() > 0 {
        blank_queries_ask_for_nothing(s.drop_last());
    }
}

/// More terms, scopes and excluded terms narrow a search: a path answers both queries together
/// exactly if it answers each of them. Endings are alternatives, so only one of the queries
/// may name some.
pub proof fn more_terms_narrow(path: Seq<char>, a: PlanView, b: PlanView)
    requires
        a.ext_filters.len() == 0 || b.ext_filters.len() == 0,
    ensures
        answers(path, both(a, b)) <==> answers(path, a) && answers(path, b),
{
    lemma_both(path, a, b);
    let whole = normalized(path);
    let name = basename(path);
    if a.ext_filters.len() == 0 {
        assert(both(a, b).ext_filters =~= b.ext_filters);
    } else {
        assert(both(a, b).ext_filters =~= a.ext_filters);
    }
}

proof fn lemma_both(path: Seq<char>, a: PlanView, b: PlanView)
    ensures
        ({
            let whole = normalized(path);
            let name = basename(path);
            let all = both(a, b);
            &&& all_scopes(all.path_globs, whole) <==> all_scopes(a.path_globs, whole)
                && all_scopes(b.path_globs, whole)
            &&& all_terms(all.include_terms, whole) <==> all_terms(a.include_terms, whole)
                && all_terms(b.include_terms, whole)
            &&& no_term(all.exclude_terms, whole, name) <==> no_term(a.exclude_terms, whole, name)
                && no_term(b.exclude_terms, whole, name)
            &&& some_ending(all.ext_filters, whole, name) <==> all.ext_filters.len() == 0 || (
            a.ext_filters.len() > 0 && some_ending(a.ext_filters, whole, name)) || (
            b.ext_filters.len() > 0 && some_ending(b.ext_filters, whole, name))
        }),
{
    let whole = normalized(path);
    let name = basename(path);
    let all = both(a, b);
    lemma_parts(a.path_globs, b.path_globs);
    lemma_parts(a.include_terms, b.include_terms);
    lemma_parts(a.exclude_terms, b.exclude_terms);
    lemma_parts(a.ext_filters, b.ext_filters);
}

proof fn lemma_parts(a: Seq<Seq<char>>, b: Seq<Seq<char>>)
    ensures
        forall|i: int| 0 <= i < a.len() ==> #[trigger] a[i] == (a + b)[i],
        forall|i: int| 0 <= i < b.len() ==> #[trigger] b[i] == (a + b)[a.len() + i],
        forall|i: int| 0 <= i < a.len() + b.len() ==> #[trigger] (a + b)[i] == (if i < a.len() {
            a[i]
        } else {
            b[i - a.len()]
        }),
{
}

/// The order of the parts of a query does not matter to what answers it.
pub proof fn order_does_not_matter(path: Seq<char>, a: PlanView, b: PlanView)
    ensures
        answers(path, both(a, b)) == answers(path, both(b, a)),
{
    lemma_both(path, a, b);
    lemma_both(path, b, a);
}

/// A text without white space is one word.
pub proof fn lemma_one_word(s: Seq<char>)
    requires
        s.len() > 0,
        forall|i: int| #![trigger s[i]] 0 <= i < s.len() ==> !is_white_space(s[i]),
    ensures
        words(s) == seq![s],
    decreases s.len(),
{
    assert(!is_white_space(s[s.len() - 1]));
    if s.len() == 1 {
        assert(s =~= seq![s.last()]);
        assert(s.drop_last() =~= seq![]);
        assert(words(s.drop_last()) =~= seq![]);
        assert(words(s) =~= seq![s]);
    } else {
        assert(!is_white_space(s[s.len() - 2]));
        let first = s.drop_last();
        assert forall|i: int| #![trigger first[i]] 0 <= i < first.len() implies !is_white_space(
            first[i],
        ) by {
            assert(first[i] == s[i]);
        }
        lemma_one_word(first);
        assert(first.push(s.last()) =~= s);
        assert(words(s) =~= seq![s]);
    }
}

/// An ending is written the same in lower case with a dot in front and without, and has no dot
/// of its own in front.
pub open spec fn takes_a_dot(ext: Seq<char>) -> bool {
    &&& ext.len() > 0
    &&& lower(seq!['.'] + ext) == seq!['.'] + lower(ext)
    &&& lower(ext).len() == 0 || lower(ext)[0] != '.'
}

/// `.rs` and `ext:rs` are the same query, and so for every other ending.
pub proof fn dot_and_ext_agree(ext: Seq<char>)
    requires
        takes_a_dot(ext),
        !ext.contains('/'),
        forall|i: int| #![trigger ext[i]] 0 <= i < ext.len() ==> !is_white_space(ext[i]),
    ensures
        plan_of(words(seq!['.'] + ext)) == plan_of(words(ext_mark() + ext)),
{
    let dot = seq!['.'] + ext;
    let named = ext_mark() + ext;
    assert forall|i: int| #![trigger dot[i]] 0 <= i < dot.len() implies !is_white_space(
        dot[i],
    ) by {
        if i > 0 {
            assert(dot[i] == ext[i - 1]);
        }
    }
    assert forall|i: int| #![trigger named[i]] 0 <= i < named.len() implies !is_white_space(
        named[i],
    ) by {
        if i >= 4 {
            assert(named[i] == ext[i - 4]);
        }
    }
    lemma_one_word(dot);
    lemma_one_word(named);
    assert(seq![dot].drop_last() =~= seq![]);
    assert(seq![named].drop_last() =~= seq![]);
    ending_tokens_agree(plan_of(seq![]), ext);
}

/// An ending asks for the same with a dot in front and with `ext:` in front, wherever it stands
/// in a query.
pub proof fn ending_tokens_agree(plan: PlanView, ext: Seq<char>)
    requires
        takes_a_dot(ext),
        !ext.contains('/'),
    ensures
        plus_token(plan, seq!['.'] + ext) == plus_token(plan, ext_mark() + ext),
{
    let dot = seq!['.'] + ext;
    let named = ext_mark() + ext;
    assert(dot[0] == '.');
    assert(named[0] == 'e');
    assert(ext_mark()[0] == 'e');
    assert(!ext_mark().is_prefix_of(dot)) by {
        if ext_mark().is_prefix_of(dot) {
            assert(dot.subrange(0, 4)[0] == 'e');
        }
    }
    assert(ext_mark().is_prefix_of(named)) by {
        assert(named.subrange(0, 4) =~= ext_mark());
    }
    assert(!dot.contains('/')) by {
        if dot.contains('/') {
            let i = choose|i: int| 0 <= i < dot.len() && dot[i] == '/';
            assert(ext[i - 1] == '/');
        }
    }
    assert(is_ending(dot));
    assert(named.skip(4) =~= ext);
    assert(strip_front(lower(ext), CharClass::Only('.')) == lower(ext));
    assert(dotted(lower(ext)) == lower(dot));
}

/// Every ASCII ending without a dot in front takes one.
pub proof fn ascii_endings_take_a_dot(ext: Seq<char>)
    requires
        ext.len() > 0,
        ext[0] != '.',
        is_ascii_chars(ext),
    ensures
        takes_a_dot(ext),
{
    let dot = seq!['.'] + ext;
    assert(is_ascii_chars(dot)) by {
        assert forall|i: int| 0 <= i < dot.len() implies '\0' <= #[trigger] dot[i] <= '\u{7f}' by {
            if i > 0 {
                assert(dot[i] == ext[i - 1]);
            }
        }
    }
    assert(ascii_lower('.') == '.');
    assert(lower(dot) =~= seq!['.'] + lower(ext));
    assert(lower(ext)[0] == ascii_lower(ext[0]));
}

/// Every ASCII ending is the same query with a dot in front and with `ext:` in front.
pub proof fn ascii_dot_and_ext_agree(ext: Seq<char>)
    requires
        ext.len() > 0,
        ext[0] != '.',
        !ext.contains('/'),
        is_ascii_chars(ext),
        forall|i: int| #![trigger ext[i]] 0 <= i < ext.len() ==> !is_white_space(ext[i]),
    ensures
        plan_of(words(seq!['.'] + ext)) == plan_of(words(ext_mark() + ext)),
{
    ascii_endings_take_a_dot(ext);
    dot_and_ext_agree(ext);
}

/// A lone `!` and a lone `ext:` ask for nothing.
pub proof fn lone_marks_ask_for_nothing(plan: PlanView)
    ensures
        plus_token(plan, seq!['!']) == plan,
        plus_token(plan, ext_mark()) == plan,
{
}

/// A token asks for something: it is neither a lone `!` nor a lone `ext:`.
pub open spec fn asks(token: Seq<char>) -> bool {
    token != seq!['!'] && token != ext_mark()
}

/// How many tokens of a list ask for something.
pub open spec fn asking(tokens: Seq<Seq<char>>) -> nat
    decreases tokens.len(),
{
    if tokens.len() == 0 {
        0
    } else {
        asking(tokens.drop_last()) + if asks(tokens.last()) {
            1nat
        } else {
            0nat
        }
    }
}

/// How many texts a plan holds.
pub open spec fn plan_size(plan: PlanView) -> nat {
    plan.include_terms.len() + plan.exclude_terms.len() + plan.ext_filters.len()
        + plan.path_globs.len()
}

/// A term as it can stand in a plan: not empty, without `/` and wildcards, without a `!` in
/// front, and without a dot in front unless it is one.
pub open spec fn is_term(term: Seq<char>) -> bool {
    &&& term.len() > 0
    &&& !is_scope(term)
    &&& term[0] != '!'
    &&& term[0] == '.' ==> term == seq!['.']
}

/// Every text of a plan looks like what its list asks for.
pub open spec fn well_shaped(plan: PlanView) -> bool {
    &&& lists_fit(plan)
    &&& forall|i: int| #![trigger plan.include_terms[i]]
        0 <= i < plan.include_terms.len() ==> is_term(plan.include_terms[i])
}

/// A word of a query: not empty, ASCII alone, no white space.
pub open spec fn is_ascii_word(w: Seq<char>) -> bool {
    &&& w.len() > 0
    &&& is_ascii_chars(w)
    &&& forall|i: int| #![trigger w[i]] 0 <= i < w.len() ==> !is_white_space(w[i])
}

/// The words of an ASCII text are ASCII words.
pub proof fn lemma_ascii_words(s: Seq<char>)
    requires
        is_ascii_chars(s),
    ensures
        forall|i: int| #![trigger words(s)[i]]
            0 <= i < words(s).len() ==> is_ascii_word(words(s)[i]),
{
    lemma_words(s);
    assert forall|i: int| #![trigger words(s)[i]] 0 <= i < words(s).len() implies is_ascii_word(
        words(s)[i],
    ) by {
        let w = words(s)[i];
        assert forall|k: int| 0 <= k < w.len() implies '\0' <= #[trigger] w[k] <= '\u{7f}' by {
            assert(s.contains(words(s)[i][k]));
            let j = choose|j: int| 0 <= j < s.len() && s[j] == w[k];
            assert('\0' <= s[j] <= '\u{7f}');
        }
        assert forall|k: int| #![trigger w[k]] 0 <= k < w.len() implies !is_white_space(w[k]) by {
            assert(!is_white_space(words(s)[i][k]));
        }
    }
}

/// Lower case leaves everything but letters where it is.
pub proof fn lemma_lower_keeps(s: Seq<char>, c: char)
    requires
        is_ascii_chars(s),
        !('A' <= c <= 'Z'),
        !('a' <= c <= 'z'),
    ensures
        lower(s).contains(c) <==> s.contains(c),
{
    if s.contains(c) {
        let i = choose|i: int| 0 <= i < s.len() && s[i] == c;
        assert(lower(s)[i] == c);
    }
    if lower(s).contains(c) {
        let i = choose|i: int| 0 <= i < lower(s).len() && lower(s)[i] == c;
        assert(ascii_lower(s[i]) == c);
        assert(s[i] == c);
    }
}

proof fn lemma_lower_scope(s: Seq<char>)
    requires
        is_ascii_chars(s),
    ensures
        is_scope(lower(s)) <==> is_scope(s),
{
    lemma_lower_keeps(s, '/');
    lemma_lower_keeps(s, '*');
    lemma_lower_keeps(s, '?');
    lemma_lower_keeps(s, '[');
}

/// Lower case keeps what a word is taken for: it leaves something, and it leaves the marks in
/// front, the `/` and the wildcards as they are.
pub open spec fn keeps_marks(w: Seq<char>) -> bool {
    &&& w.len() > 0
    &&& lower(w).len() > 0
    &&& is_scope(lower(w)) == is_scope(w)
    &&& lower(w)[0] == '!' <==> w[0] == '!'
    &&& lower(w)[0] == '.' <==> w[0] == '.'
    &&& w == seq!['.'] ==> lower(w) == w
    &&& w.len() > 1 ==> lower(w.skip(1)).len() > 0
}

/// Lower case keeps what an ASCII word is taken for.
pub proof fn ascii_words_keep_marks(w: Seq<char>)
    requires
        is_ascii_word(w),
    ensures
        keeps_marks(w),
{
    lemma_lower_scope(w);
    assert(lower(w)[0] == ascii_lower(w[0]));
    if w == seq!['.'] {
        assert(lower(w) =~= w);
    }
    let rest = w.skip(1);
    assert forall|k: int| 0 <= k < rest.len() implies '\0' <= #[trigger] rest[k] <= '\u{7f}' by {
        assert(rest[k] == w[k + 1]);
    }
    assert(lower(rest).len() == rest.len());
}

proof fn lemma_token_shape(plan: PlanView, token: Seq<char>)
    requires
        well_shaped(plan),
        keeps_marks(token),
    ensures
        well_shaped(plus_token(plan, token)),
{
    if token[0] == '.' && !is_ending(token) && !is_scope(token) {
        assert(token =~= seq!['.']);
    }
}

proof fn lemma_tokens_shape(tokens: Seq<Seq<char>>)
    requires
        forall|i: int| #![trigger tokens[i]] 0 <= i < tokens.len() ==> keeps_marks(tokens[i]),
    ensures
        well_shaped(plan_of(tokens)),
    decreases tokens.len(),
{
    if tokens.len() > 0 {
        let first = tokens.drop_last();
        assert forall|i: int| #![trigger first[i]] 0 <= i < first.len() implies keeps_marks(
            first[i],
        ) by {
            assert(tokens[i] == first[i]);
        }
        lemma_tokens_shape(first);
        assert(keeps_marks(tokens[tokens.len() - 1]));
        lemma_token_shape(plan_of(first), tokens.last());
    }
}

proof fn lemma_tokens_size(tokens: Seq<Seq<char>>)
    ensures
        plan_size(plan_of(tokens)) == asking(tokens),
    decreases tokens.len(),
{
    if tokens.len() > 0 {
        lemma_tokens_size(tokens.drop_last());
        let token = tokens.last();
        if token.len() > 0 && token[0] == '!' {
            if token.len() == 1 {
                assert(token =~= seq!['!']);
            }
            assert(ext_mark()[0] == 'e');
        } else if ext_mark().is_prefix_of(token) {
            if token.len() == 4 {
                assert(token.subrange(0, 4) =~= token);
            }
            assert(token.len() > 4 ==> token != ext_mark());
        } else if token == ext_mark() {
            assert(token.subrange(0, 4) =~= ext_mark());
        }
    }
}

/// Every word of a query but a lone `!` and a lone `ext:` stands in exactly one list of its plan.
pub proof fn plans_hold_every_word(s: Seq<char>)
    ensures
        plan_size(plan_of(words(s))) == asking(words(s)),
{
    lemma_tokens_size(words(s));
}

/// Every text of a plan looks like what its list asks for: nothing is empty, an ending starts with
/// a dot, a scope holds a `/` or a wildcard, and a term holds neither and has no mark in front.
/// This holds of every query whose words lower case leaves recognizable. All of it but the last
/// part holds of every query whatever: `parse_query` says so.
pub proof fn plans_are_well_shaped(s: Seq<char>)
    requires
        forall|i: int| #![trigger words(s)[i]]
            0 <= i < words(s).len() ==> keeps_marks(words(s)[i]),
    ensures
        well_shaped(plan_of(words(s))),
{
    lemma_tokens_shape(words(s));
}

/// The plan of every ASCII query has that shape.
pub proof fn ascii_plans_are_well_shaped(s: Seq<char>)
    requires
        is_ascii_chars(s),
    ensures
        well_shaped(plan_of(words(s))),
{
    lemma_ascii_words(s);
    assert forall|i: int| #![trigger words(s)[i]] 0 <= i < words(s).len() implies keeps_marks(
        words(s)[i],
    ) by {
        ascii_words_keep_marks(words(s)[i]);
    }
    plans_are_well_shaped(s);
}

} // verus!
