//! What every part of a query asks of a path.

use crate::laws::matching::{
    is_part, is_part_at, lemma_deep_patterns, literal_scopes_are_parts, two_stars_are_any_depth,
};
use crate::laws::scoring::lemma_occurs;
use crate::laws::texts::{
    all_of, trimming_can_leave_nothing, trimming_takes_the_ends_alone,
    trimming_the_front_takes_it_alone,
};
use crate::patterns::{accepts, stars_fit, syntax_error, wild};
use crate::query::{
    answers, basename, dotted, empty_plan, ending_holds, ext_mark, has_meta, normalized, plan_of,
    scope_core, scope_holds, scope_text, PlanView,
};
use crate::text::{
    ascii_lower, is_white_space, lower, occurs_at, replaced, strip, strip_front, words, CharClass,
};
use vstd::prelude::*;
use vstd::utf8::is_ascii_chars;

verus! {

/// A text stands somewhere in another.
pub open spec fn stands_in(text: Seq<char>, whole: Seq<char>) -> bool {
    exists|a: Seq<char>, b: Seq<char>| whole == #[trigger] (a + text + b)
}

/// The plan of some endings alone.
pub open spec fn endings_alone(endings: Seq<Seq<char>>) -> PlanView {
    PlanView { ext_filters: endings, ..empty_plan() }
}

/// A query that asks for nothing has every path for an answer.
pub proof fn every_path_answers_nothing(path: Seq<char>)
    ensures
        answers(path, empty_plan()),
{
}

/// A query of one term is answered by the paths that hold it, anywhere.
pub proof fn a_term_asks_to_stand_in_the_path(path: Seq<char>, term: Seq<char>)
    ensures
        answers(path, PlanView { include_terms: seq![term], ..empty_plan() }) <==> stands_in(
            term,
            normalized(path),
        ),
{
    let plan = PlanView { include_terms: seq![term], ..empty_plan() };
    lemma_occurs(normalized(path), term);
    assert(plan.include_terms[0] == term);
}

/// A query of one excluded term is answered by the paths that hold it nowhere, neither in the
/// whole nor in the file name.
pub proof fn an_excluded_term_asks_to_stand_nowhere(path: Seq<char>, term: Seq<char>)
    ensures
        answers(path, PlanView { exclude_terms: seq![term], ..empty_plan() }) <==> !stands_in(
            term,
            normalized(path),
        ) && !stands_in(term, basename(path)),
{
    let plan = PlanView { exclude_terms: seq![term], ..empty_plan() };
    lemma_occurs(normalized(path), term);
    lemma_occurs(basename(path), term);
    assert(plan.exclude_terms[0] == term);
}

/// A query of one scope is answered by the paths that the scope holds of.
pub proof fn a_scope_asks_to_hold(path: Seq<char>, scope: Seq<char>)
    ensures
        answers(path, PlanView { path_globs: seq![scope], ..empty_plan() }) <==> scope_holds(
            scope,
            normalized(path),
        ),
{
    let plan = PlanView { path_globs: seq![scope], ..empty_plan() };
    assert(plan.path_globs[0] == scope);
}

/// Wildcards are `*`, `?` and `[`.
pub proof fn wildcards_are_three(text: Seq<char>)
    ensures
        has_meta(text) <==> exists|i: int|
            0 <= i < text.len() && (#[trigger] text[i] == '*' || text[i] == '?' || text[i] == '['),
{
    if has_meta(text) {
        let c = if text.contains('*') {
            '*'
        } else if text.contains('?') {
            '?'
        } else {
            '['
        };
        let i = choose|i: int| 0 <= i < text.len() && text[i] == c;
        assert(text[i] == c);
    }
    if exists|i: int|
        0 <= i < text.len() && (#[trigger] text[i] == '*' || text[i] == '?' || text[i] == '[') {
        let i = choose|i: int|
            0 <= i < text.len() && (#[trigger] text[i] == '*' || text[i] == '?' || text[i] == '[');
        assert(text.contains(text[i]));
    }
}

/// An ending without wildcards holds of every path that ends in it, whatever stands before it,
/// and of no other.
pub proof fn plain_endings_end_the_path(filter: Seq<char>, path: Seq<char>, name: Seq<char>)
    requires
        !filter.contains('*'),
        !filter.contains('?'),
        !filter.contains('['),
    ensures
        ending_holds(filter, path, name) <==> exists|stem: Seq<char>| path == #[trigger] (stem
            + filter),
{
    if filter.is_suffix_of(path) {
        let stem = path.take(path.len() - filter.len());
        assert(path =~= stem + filter);
    }
    if exists|stem: Seq<char>| path == #[trigger] (stem + filter) {
        let stem = choose|stem: Seq<char>| path == #[trigger] (stem + filter);
        assert(path.subrange(path.len() - filter.len(), path.len() as int) =~= filter);
    }
}

/// A query of one ending without wildcards is answered by every path that ends in it, and by no
/// other.
pub proof fn an_ending_asks_to_end_the_path(path: Seq<char>, filter: Seq<char>)
    requires
        !filter.contains('*'),
        !filter.contains('?'),
        !filter.contains('['),
    ensures
        answers(path, endings_alone(seq![filter])) <==> exists|stem: Seq<char>|
            normalized(path) == #[trigger] (stem + filter),
{
    plain_endings_end_the_path(filter, normalized(path), basename(path));
    assert(endings_alone(seq![filter]).ext_filters[0] == filter);
}

/// An ending with wildcards asks something of the file name alone.
pub proof fn wildcard_endings_ask_for_names(
    filter: Seq<char>,
    path: Seq<char>,
    other: Seq<char>,
    name: Seq<char>,
)
    requires
        filter.contains('*') || filter.contains('?') || filter.contains('['),
    ensures
        ending_holds(filter, path, name) == ending_holds(filter, other, name),
{
}

/// An ending with wildcards and a `*` in front is a pattern for the file name as it stands; any
/// other with wildcards is one with a `*` put in front. An ending that is no pattern holds of no
/// path.
pub proof fn wildcard_endings_are_patterns(filter: Seq<char>, path: Seq<char>, name: Seq<char>)
    requires
        filter.contains('*') || filter.contains('?') || filter.contains('['),
    ensures
        filter[0] == '*' ==> (ending_holds(filter, path, name) <==> syntax_error(filter) is None
            && accepts(filter, name)),
        filter[0] != '*' ==> (ending_holds(filter, path, name) <==> syntax_error(
            seq!['*'] + filter,
        ) is None && accepts(seq!['*'] + filter, name)),
{
    assert(filter.len() > 0);
}

/// Endings are alternatives: a path answers a query of two lists of endings if it answers one of
/// them.
pub proof fn endings_are_alternatives(path: Seq<char>, a: Seq<Seq<char>>, b: Seq<Seq<char>>)
    requires
        a.len() > 0,
        b.len() > 0,
    ensures
        answers(path, endings_alone(a + b)) <==> answers(path, endings_alone(a)) || answers(
            path,
            endings_alone(b),
        ),
{
    let whole = normalized(path);
    let name = basename(path);
    let all = a + b;
    if answers(path, endings_alone(all)) {
        let i = choose|i: int|
            0 <= i < all.len() && ending_holds(#[trigger] all[i], whole, name);
        if i < a.len() {
            assert(ending_holds(a[i], whole, name));
        } else {
            assert(ending_holds(b[i - a.len()], whole, name));
        }
    }
    if answers(path, endings_alone(a)) {
        let i = choose|i: int| 0 <= i < a.len() && ending_holds(#[trigger] a[i], whole, name);
        assert(all[i] == a[i]);
    }
    if answers(path, endings_alone(b)) {
        let i = choose|i: int| 0 <= i < b.len() && ending_holds(#[trigger] b[i], whole, name);
        assert(all[a.len() + i] == b[i]);
    }
}

/// A path is compared in lower case and with `/` for every backslash, each character in its
/// place.
pub proof fn paths_are_compared_in_lower_case(path: Seq<char>, i: int)
    requires
        is_ascii_chars(path),
        0 <= i < path.len(),
    ensures
        normalized(path).len() == path.len(),
        path[i] == '\\' ==> normalized(path)[i] == '/',
        'A' <= path[i] <= 'Z' ==> normalized(path)[i] as int == path[i] as int + 32,
        path[i] != '\\' && !('A' <= path[i] <= 'Z') ==> normalized(path)[i] == path[i],
{
    let r = replaced(path, '\\', '/');
    assert(is_ascii_chars(r)) by {
        assert forall|k: int| 0 <= k < r.len() implies '\0' <= #[trigger] r[k] <= '\u{7f}' by {
            assert('\0' <= path[k] <= '\u{7f}');
        }
    }
    assert(normalized(path)[i] == ascii_lower(r[i]));
}

/// Whatever a path holds, a query sees its lower case with `/` for every backslash.
pub proof fn backslashes_are_slashes(path: Seq<char>)
    ensures
        normalized(path) == lower(path.map_values(|c: char| if c == '\\' { '/' } else { c })),
{
    assert(replaced(path, '\\', '/') =~= path.map_values(
        |c: char| if c == '\\' { '/' } else { c },
    ));
}

/// A text as a scope of a query holds it: in lower case, without white space and backslashes.
pub open spec fn is_low_text(s: Seq<char>) -> bool {
    &&& is_ascii_chars(s)
    &&& forall|i: int| #![trigger s[i]]
        0 <= i < s.len() ==> !('A' <= s[i] <= 'Z') && !is_white_space(s[i]) && s[i] != '\\'
}

proof fn lemma_low_scope(scope: Seq<char>)
    requires
        is_low_text(scope),
        scope.len() > 0,
    ensures
        scope_text(scope) == scope,
{
    let none = Seq::<char>::empty();
    assert(none + scope + none =~= scope);
    assert(!is_white_space(scope[0]) && !is_white_space(scope[scope.len() - 1]));
    trimming_takes_the_ends_alone(none, scope, none, CharClass::WhiteSpace);
    assert(replaced(scope, '\\', '/') =~= scope) by {
        assert forall|i: int| 0 <= i < scope.len() implies scope[i] != '\\' by {
            assert(!is_white_space(scope[i]));
        }
    }
    assert(lower(scope) =~= scope) by {
        assert forall|i: int| 0 <= i < scope.len() implies ascii_lower(scope[i]) == scope[i] by {
            assert(!is_white_space(scope[i]));
        }
    }
}

/// A scope is compared as a path is, whatever white space is written around it.
pub proof fn scopes_are_compared_like_paths(front: Seq<char>, text: Seq<char>, back: Seq<char>)
    requires
        all_of(CharClass::WhiteSpace, front),
        all_of(CharClass::WhiteSpace, back),
        text.len() > 0,
        !is_white_space(text[0]),
        !is_white_space(text.last()),
    ensures
        scope_text(front + text + back) == normalized(text),
{
    trimming_takes_the_ends_alone(front, text, back, CharClass::WhiteSpace);
}

/// A scope is one or more names, whatever `/` are written around it.
pub proof fn slashes_around_a_scope_do_not_matter(
    front: Seq<char>,
    core: Seq<char>,
    back: Seq<char>,
)
    requires
        all_of(CharClass::Only('/'), front),
        all_of(CharClass::Only('/'), back),
        is_low_text(core),
        core.len() > 0,
        core[0] != '/',
        core.last() != '/',
    ensures
        scope_core(front + core + back) == core,
{
    let scope = front + core + back;
    assert forall|i: int| #![trigger scope[i]] 0 <= i < scope.len() implies '\0' <= scope[i]
        <= '\u{7f}' && !('A' <= scope[i] <= 'Z') && !is_white_space(scope[i]) && scope[i]
        != '\\' by {
        if i < front.len() {
            assert(CharClass::Only('/').has(front[i]));
        } else if i < front.len() + core.len() {
            assert(scope[i] == core[i - front.len()]);
            assert('\0' <= core[i - front.len()] <= '\u{7f}');
        } else {
            assert(CharClass::Only('/').has(back[i - front.len() - core.len()]));
        }
    }
    lemma_low_scope(scope);
    trimming_takes_the_ends_alone(front, core, back, CharClass::Only('/'));
}

/// A scope of names holds of the paths in which these names stand one behind the other, from a
/// `/` or the start to a `/` or the end, at any depth; and of no other.
pub proof fn a_scope_of_names_is_a_part_of_the_path(
    front: Seq<char>,
    core: Seq<char>,
    back: Seq<char>,
    path: Seq<char>,
)
    requires
        all_of(CharClass::Only('/'), front),
        all_of(CharClass::Only('/'), back),
        is_low_text(core),
        core.len() > 0,
        core[0] != '/',
        core.last() != '/',
        !core.contains('*'),
        !core.contains('?'),
        !core.contains('['),
    ensures
        scope_holds(front + core + back, path) <==> exists|a: Seq<char>, b: Seq<char>|
            path == #[trigger] (a + core + b) && (a.len() == 0 || a.last() == '/') && (b.len() == 0
                || b[0] == '/'),
{
    slashes_around_a_scope_do_not_matter(front, core, back);
    a_literal_scope_stands_between_slashes(front + core + back, path);
}

/// A scope of `/` alone holds of every path.
pub proof fn the_root_scope_holds_everywhere(slashes: Seq<char>, path: Seq<char>)
    requires
        all_of(CharClass::Only('/'), slashes),
    ensures
        scope_holds(slashes, path),
{
    if slashes.len() > 0 {
        assert forall|i: int| #![trigger slashes[i]] 0 <= i < slashes.len() implies slashes[i]
            == '/' by {
            assert(CharClass::Only('/').has(slashes[i]));
        }
        lemma_low_scope(slashes);
    } else {
        assert(slashes =~= seq![]);
        assert(strip(slashes, CharClass::WhiteSpace) =~= seq![]);
        assert(scope_text(slashes) =~= seq![]);
    }
    trimming_can_leave_nothing(scope_text(slashes), CharClass::Only('/'));
}

/// A scope with wildcards, but without `[`, holds of a path that it stands for as it is written,
/// or without the `/` around it, or without them from behind some `/` of the path on.
pub proof fn a_wildcard_scope_is_a_pattern(
    front: Seq<char>,
    core: Seq<char>,
    back: Seq<char>,
    path: Seq<char>,
)
    requires
        all_of(CharClass::Only('/'), front),
        all_of(CharClass::Only('/'), back),
        is_low_text(core),
        core.len() > 0,
        core[0] != '/',
        core.last() != '/',
        core.contains('*') || core.contains('?'),
        !core.contains('['),
        stars_fit(core),
        stars_fit(front + core + back),
    ensures
        scope_holds(front + core + back, path) <==> wild(front + core + back, path) || wild(
            core,
            path,
        ) || exists|k: int|
            0 <= k < path.len() && path[k] == '/' && #[trigger] wild(core, path.skip(k + 1)),
{
    let scope = front + core + back;
    slashes_around_a_scope_do_not_matter(front, core, back);
    assert forall|i: int| #![trigger scope[i]] 0 <= i < scope.len() implies '\0' <= scope[i]
        <= '\u{7f}' && !('A' <= scope[i] <= 'Z') && !is_white_space(scope[i]) && scope[i] != '\\'
        && scope[i] != '[' by {
        if i < front.len() {
            assert(CharClass::Only('/').has(front[i]));
        } else if i < front.len() + core.len() {
            assert(scope[i] == core[i - front.len()]);
            assert('\0' <= core[i - front.len()] <= '\u{7f}');
            assert(core.contains(core[i - front.len()]));
        } else {
            assert(CharClass::Only('/').has(back[i - front.len() - core.len()]));
        }
    }
    lemma_low_scope(scope);
    assert(!scope.contains('['));
    lemma_deep_patterns(core);
    two_stars_are_any_depth(core, path);
}

/// A scope is compared without the `/` around it, whatever it holds.
pub proof fn a_scope_has_a_core(
    scope: Seq<char>,
    front: Seq<char>,
    core: Seq<char>,
    back: Seq<char>,
)
    requires
        scope_text(scope) == front + core + back,
        all_of(CharClass::Only('/'), front),
        all_of(CharClass::Only('/'), back),
        core.len() > 0,
        core[0] != '/',
        core.last() != '/',
    ensures
        scope_core(scope) == core,
{
    trimming_takes_the_ends_alone(front, core, back, CharClass::Only('/'));
}

/// A scope with wildcards is tried as it is written, without the `/` around it, and without them
/// at any depth; what is no pattern holds of no path.
pub proof fn a_wildcard_scope_is_tried_three_ways(scope: Seq<char>, path: Seq<char>)
    requires
        ({
            let core = scope_core(scope);
            core.contains('*') || core.contains('?') || core.contains('[')
        }),
    ensures
        ({
            let text = scope_text(scope);
            let core = scope_core(scope);
            let deep = seq!['*', '*', '/'] + core;
            scope_holds(scope, path) <==> (syntax_error(text) is None && accepts(text, path)) || (
            syntax_error(core) is None && accepts(core, path)) || (syntax_error(deep) is None
                && accepts(deep, path))
        }),
{
}

/// A scope without wildcards holds of the paths in which it stands from a `/` or the start to a `/`
/// or the end, whatever it holds.
pub proof fn a_literal_scope_stands_between_slashes(scope: Seq<char>, path: Seq<char>)
    requires
        ({
            let core = scope_core(scope);
            core.len() > 0 && !core.contains('*') && !core.contains('?') && !core.contains('[')
        }),
    ensures
        scope_holds(scope, path) <==> exists|a: Seq<char>, b: Seq<char>|
            path == #[trigger] (a + scope_core(scope) + b) && (a.len() == 0 || a.last() == '/') && (
            b.len() == 0 || b[0] == '/'),
{
    let core = scope_core(scope);
    literal_scopes_are_parts(scope, path);
    lemma_part_between(core, path);
}

proof fn lemma_part_between(core: Seq<char>, path: Seq<char>)
    ensures
        is_part(core, path) <==> exists|a: Seq<char>, b: Seq<char>|
            path == #[trigger] (a + core + b) && (a.len() == 0 || a.last() == '/') && (b.len() == 0
                || b[0] == '/'),
{
    if is_part(core, path) {
        let k = choose|k: int| #[trigger] is_part_at(core, path, k);
        let a = path.take(k);
        let b = path.skip(k + core.len());
        assert(path =~= a + core + b);
        assert(a.len() == 0 || a.last() == path[k - 1]);
    }
    if exists|a: Seq<char>, b: Seq<char>|
        path == #[trigger] (a + core + b) && (a.len() == 0 || a.last() == '/') && (b.len() == 0
            || b[0] == '/') {
        let (a, b) = choose|a: Seq<char>, b: Seq<char>|
            path == #[trigger] (a + core + b) && (a.len() == 0 || a.last() == '/') && (b.len()
                == 0 || b[0] == '/');
        let k = a.len() as int;
        assert(path.subrange(k, k + core.len()) =~= core);
        assert(occurs_at(path, core, k));
        assert(k == 0 || path[k - 1] == a.last());
        assert(is_part_at(core, path, k));
    }
}

/// An ending gets one dot in front, however many were written.
pub proof fn endings_get_one_dot(dots: Seq<char>, rest: Seq<char>)
    requires
        all_of(CharClass::Only('.'), dots),
        rest.len() > 0,
        rest[0] != '.',
    ensures
        dotted(dots + rest) == seq!['.'] + rest,
        dotted(dots) == seq!['.'],
{
    let none = Seq::<char>::empty();
    trimming_the_front_takes_it_alone(dots, rest, CharClass::Only('.'));
    trimming_can_leave_nothing(dots, CharClass::Only('.'));
    assert(seq!['.'] + none =~= seq!['.']);
}

/// A word of a query goes where its marks say, in lower case, and nowhere else: behind `!` it is
/// excluded; behind `ext:` it is an ending, with one dot in front; with a dot in front and no `/`
/// it is an ending; with a `/` or a wildcard it is a scope; and any other word is a term.
pub proof fn a_word_goes_where_its_marks_say(word: Seq<char>, rest: Seq<char>)
    requires
        word.len() > 0,
        forall|i: int| #![trigger word[i]] 0 <= i < word.len() ==> !is_white_space(word[i]),
    ensures
        ({
            let plan = plan_of(words(word));
            let named = word.len() >= 4 && word[0] == 'e' && word[1] == 'x' && word[2] == 't'
                && word[3] == ':';
            let slash = exists|i: int| 0 <= i < word.len() && #[trigger] word[i] == '/';
            let scoped = exists|i: int|
                0 <= i < word.len() && (#[trigger] word[i] == '/' || word[i] == '*' || word[i]
                    == '?' || word[i] == '[');
            if word[0] == '!' {
                word == seq!['!'] + rest && rest.len() > 0 ==> plan == (PlanView {
                    exclude_terms: seq![lower(rest)],
                    ..empty_plan()
                })
            } else if named {
                word == seq!['e', 'x', 't', ':'] + rest && rest.len() > 0 ==> plan
                    == endings_alone(
                    seq![seq!['.'] + strip_front(lower(rest), CharClass::Only('.'))],
                )
            } else if word.len() > 1 && word[0] == '.' && !slash {
                plan == endings_alone(seq![lower(word)])
            } else if scoped {
                plan == (PlanView { path_globs: seq![lower(word)], ..empty_plan() })
            } else {
                plan == (PlanView { include_terms: seq![lower(word)], ..empty_plan() })
            }
        }),
{
    crate::laws::parsing::lemma_one_word(word);
    let plan = plan_of(words(word));
    let none = Seq::<Seq<char>>::empty();
    assert(seq![word].drop_last() =~= none);
    assert(plan_of(none) == empty_plan());
    assert(none.push(lower(word)) =~= seq![lower(word)]);
    assert(none.push(lower(rest)) =~= seq![lower(rest)]);
    let mark = ext_mark();
    let named = word.len() >= 4 && word[0] == 'e' && word[1] == 'x' && word[2] == 't' && word[3]
        == ':';
    assert(named <==> mark.is_prefix_of(word)) by {
        if named {
            assert(word.subrange(0, 4) =~= mark);
        }
        if mark.is_prefix_of(word) {
            assert(word.subrange(0, 4)[0] == mark[0]);
            assert(word.subrange(0, 4)[1] == mark[1]);
            assert(word.subrange(0, 4)[2] == mark[2]);
            assert(word.subrange(0, 4)[3] == mark[3]);
        }
    }
    wildcards_are_three(word);
    if word.contains('/') {
        let i = choose|i: int| 0 <= i < word.len() && word[i] == '/';
        assert(word[i] == '/');
    }
    if has_meta(word) {
        let i = choose|i: int|
            0 <= i < word.len() && (#[trigger] word[i] == '*' || word[i] == '?' || word[i] == '[');
        assert(word[i] != '/');
    }
    if word == seq!['!'] + rest {
        assert(word.skip(1) =~= rest);
    }
    if word == mark + rest {
        assert(word.skip(4) =~= rest);
        let e = dotted(lower(rest));
        assert(none.push(e) =~= seq![e]);
    }
}

} // verus!
