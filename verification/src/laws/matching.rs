//! What holds of every pattern and every path.

use crate::paths::{
    components, is_name, lemma_components, lemma_segment_end, segment_end, segments,
};
use crate::patterns::{
    accepts, at_any_depth, below_any_depth, is_whole_tree, lemma_behind_slash, stars_fit,
    starts_deep, syntax_error, two_stars, wild,
};
use crate::query::{
    answers, basename, ending_holds, ending_pattern, has_meta, normalized, scope_core, scope_holds,
    score_of, PlanView,
};
use crate::text::{ascii_lower, lower, occurs_at, replaced};
use vstd::prelude::*;
use vstd::utf8::is_ascii_chars;

verus! {

/// `?` stands for exactly one character.
pub proof fn question_mark_is_one_character(p: Seq<char>, t: Seq<char>)
    ensures
        wild(seq!['?'] + p, t) <==> t.len() > 0 && wild(p, t.drop_first()),
{
    assert((seq!['?'] + p).drop_first() =~= p);
    assert((seq!['?'] + p)[0] == '?');
}

/// `*` stands for any number of characters, also for none.
pub proof fn star_is_any_text(p: Seq<char>, t: Seq<char>)
    requires
        p.len() == 0 || p[0] != '*',
    ensures
        wild(seq!['*'] + p, t) <==> exists|k: int|
            0 <= k <= t.len() && wild(p, #[trigger] t.skip(k)),
    decreases t.len(),
{
    let star = seq!['*'] + p;
    assert(star.drop_first() =~= p);
    assert(star[0] == '*');
    assert(p.len() > 0 ==> star[1] == p[0]);
    assert(!is_whole_tree(star) && !starts_deep(star));
    assert(t.skip(0) =~= t);
    if t.len() > 0 {
        let rest = t.drop_first();
        star_is_any_text(p, rest);
        if wild(star, rest) {
            let k = choose|k: int| 0 <= k <= rest.len() && wild(p, #[trigger] rest.skip(k));
            assert(rest.skip(k) =~= t.skip(k + 1));
        }
        if exists|k: int| 0 <= k <= t.len() && wild(p, #[trigger] t.skip(k)) {
            let k = choose|k: int| 0 <= k <= t.len() && wild(p, #[trigger] t.skip(k));
            if k > 0 {
                assert(rest.skip(k - 1) =~= t.skip(k));
            }
        }
    } else if exists|k: int| 0 <= k <= t.len() && wild(p, #[trigger] t.skip(k)) {
        let k = choose|k: int| 0 <= k <= t.len() && wild(p, #[trigger] t.skip(k));
        assert(k == 0);
    }
}

/// `**/` stands for nothing or for a text that ends in `/`.
pub proof fn two_stars_are_any_depth(p: Seq<char>, t: Seq<char>)
    requires
        p.len() > 0,
    ensures
        wild(at_any_depth(p), t) <==> wild(p, t) || exists|k: int|
            0 <= k < t.len() && t[k] == '/' && #[trigger] wild(p, t.skip(k + 1)),
    decreases t.len(),
{
    let deep = at_any_depth(p);
    assert(deep.len() > 3);
    assert(deep[0] == '*' && deep[1] == '*' && deep[2] == '/');
    assert(deep.skip(3) =~= p);
    if t.contains('/') {
        let s = lemma_behind_slash(t);
        let u = t.skip(s + 1);
        two_stars_are_any_depth(p, u);
        if wild(deep, u) {
            if wild(p, u) {
                assert(wild(p, t.skip(s + 1)));
            } else {
                let k = choose|k: int|
                    0 <= k < u.len() && u[k] == '/' && #[trigger] wild(p, u.skip(k + 1));
                assert(u.skip(k + 1) =~= t.skip(s + 1 + k + 1));
                assert(t[s + 1 + k] == '/');
                assert(wild(p, t.skip(s + 1 + k + 1)));
            }
        }
        if exists|k: int| 0 <= k < t.len() && t[k] == '/' && #[trigger] wild(p, t.skip(k + 1)) {
            let k = choose|k: int|
                0 <= k < t.len() && t[k] == '/' && #[trigger] wild(p, t.skip(k + 1));
            if k > s {
                assert(u[k - s - 1] == '/');
                assert(u.skip(k - s - 1 + 1) =~= t.skip(k + 1));
                assert(wild(p, u.skip(k - s - 1 + 1)));
            }
        }
    } else if exists|k: int| 0 <= k < t.len() && t[k] == '/' && #[trigger] wild(p, t.skip(k + 1)) {
        let k = choose|k: int|
            0 <= k < t.len() && t[k] == '/' && #[trigger] wild(p, t.skip(k + 1));
        assert(t.contains(t[k]));
    }
}

/// A text without `[` is a pattern if two stars in a row stand only as a whole part of a path,
/// and it accepts what it stands for.
pub proof fn patterns_accept_what_they_stand_for(p: Seq<char>, t: Seq<char>)
    requires
        forall|i: int| #![trigger p[i]] 0 <= i < p.len() ==> p[i] != '[',
    ensures
        accepts(p, t) <==> wild(p, t),
        syntax_error(p) is None <==> forall|i: int|
            #![trigger p[i]]
            0 <= i && i + 1 < p.len() && p[i] == '*' && p[i + 1] == '*' ==> (i == 0 || p[i - 1]
                == '/') && (i + 2 == p.len() || p[i + 2] == '/'),
{
    if stars_fit(p) {
        assert forall|i: int|
            #![trigger p[i]]
            0 <= i && i + 1 < p.len() && p[i] == '*' && p[i + 1] == '*' implies (i == 0 || p[i - 1]
            == '/') && (i + 2 == p.len() || p[i + 2] == '/') by {
            assert(two_stars(p, i));
        }
    }
}

/// `**` at the end stands for whatever follows.
pub proof fn two_stars_at_the_end_are_anything(t: Seq<char>)
    ensures
        wild(seq!['*', '*'], t),
        wild(seq!['*', '*', '/'], t),
{
}

/// Any other character stands for itself.
pub proof fn other_characters_are_themselves(p: Seq<char>, t: Seq<char>)
    requires
        !p.contains('*'),
        !p.contains('?'),
    ensures
        wild(p, t) <==> p == t,
    decreases p.len(),
{
    if p.len() == 0 {
        if t.len() == 0 {
            assert(p =~= t);
        }
    } else {
        assert(p.contains(p[0]));
        assert forall|c: char| !p.contains(c) implies !(#[trigger] p.drop_first().contains(c)) by {
            if p.drop_first().contains(c) {
                let i = choose|i: int| 0 <= i < p.drop_first().len() && p.drop_first()[i] == c;
                assert(p[i + 1] == c);
            }
        }
        if t.len() > 0 {
            other_characters_are_themselves(p.drop_first(), t.drop_first());
            assert(p =~= seq![p[0]] + p.drop_first());
            assert(t =~= seq![t[0]] + t.drop_first());
        }
    }
}

/// A literal text in front of a pattern.
pub proof fn lemma_literal_front(p: Seq<char>, rest: Seq<char>, t: Seq<char>)
    requires
        !p.contains('*'),
        !p.contains('?'),
    ensures
        wild(p + rest, t) <==> p.len() <= t.len() && t.take(p.len() as int) == p && wild(
            rest,
            t.skip(p.len() as int),
        ),
    decreases p.len(),
{
    if p.len() == 0 {
        assert(p + rest =~= rest);
        assert(t.skip(0) =~= t);
        assert(t.take(0) =~= p);
    } else {
        assert(p.contains(p[0]));
        let q = p.drop_first();
        assert forall|c: char| !p.contains(c) implies !(#[trigger] q.contains(c)) by {
            if q.contains(c) {
                let i = choose|i: int| 0 <= i < q.len() && q[i] == c;
                assert(p[i + 1] == c);
            }
        }
        assert((p + rest).drop_first() =~= q + rest);
        if t.len() > 0 {
            let u = t.drop_first();
            lemma_literal_front(q, rest, u);
            if p.len() <= t.len() {
                assert(u.skip(q.len() as int) =~= t.skip(p.len() as int));
                assert(t.take(p.len() as int).drop_first() =~= u.take(q.len() as int));
                assert(t.take(p.len() as int) =~= seq![t[0]] + u.take(q.len() as int));
                assert(p =~= seq![p[0]] + q);
            }
        }
    }
}

/// A text stands in a path from one `/`, or the start, to the next, or the end.
pub open spec fn is_part(text: Seq<char>, path: Seq<char>) -> bool {
    exists|k: int| #[trigger] is_part_at(text, path, k)
}

/// A text stands in a path from `k` on, and begins and ends where parts do.
pub open spec fn is_part_at(text: Seq<char>, path: Seq<char>, k: int) -> bool {
    &&& occurs_at(path, text, k)
    &&& k == 0 || path[k - 1] == '/'
    &&& k + text.len() == path.len() || path[k + text.len()] == '/'
}

proof fn lemma_part_here(text: Seq<char>, path: Seq<char>, k: int)
    requires
        !text.contains('*'),
        !text.contains('?'),
        0 <= k <= path.len(),
    ensures
        wild(text, path.skip(k)) <==> occurs_at(path, text, k) && k + text.len() == path.len(),
        wild(text + seq!['/', '*', '*'], path.skip(k)) <==> occurs_at(path, text, k) && k
            + text.len() < path.len() && path[k + text.len()] == '/',
{
    let t = path.skip(k);
    let n = text.len() as int;
    other_characters_are_themselves(text, t);
    if n <= t.len() {
        assert(path.subrange(k, k + n) =~= t.take(n));
    }
    if k + n == path.len() {
        assert(t.take(n) =~= t);
    }
    lemma_literal_front(text, seq!['/', '*', '*'], t);
    if n <= t.len() {
        let u = t.skip(n);
        lemma_literal_front(seq!['/'], seq!['*', '*'], u);
        assert(seq!['/'] + seq!['*', '*'] =~= seq!['/', '*', '*']);
        assert(u =~= path.skip(k + n));
        if u.len() > 0 {
            two_stars_at_the_end_are_anything(u.skip(1));
            if u[0] == '/' {
                assert(u.take(1) =~= seq!['/']);
            } else {
                assert(u.take(1)[0] == u[0]);
            }
        }
    }
}

proof fn lemma_anywhere(text: Seq<char>, path: Seq<char>)
    requires
        !text.contains('*'),
        !text.contains('?'),
        text.len() > 0,
    ensures
        wild(at_any_depth(text), path) || wild(below_any_depth(text), path) <==> is_part(
            text,
            path,
        ),
{
    let below = text + seq!['/', '*', '*'];
    assert(below_any_depth(text) =~= at_any_depth(below));
    two_stars_are_any_depth(text, path);
    two_stars_are_any_depth(below, path);
    assert(path.skip(0) =~= path);
    if wild(at_any_depth(text), path) || wild(at_any_depth(below), path) {
        if wild(text, path) || wild(below, path) {
            lemma_part_here(text, path, 0);
            assert(is_part_at(text, path, 0));
        } else if exists|k: int|
            0 <= k < path.len() && path[k] == '/' && #[trigger] wild(text, path.skip(k + 1)) {
            let k = choose|k: int|
                0 <= k < path.len() && path[k] == '/' && #[trigger] wild(text, path.skip(k + 1));
            lemma_part_here(text, path, k + 1);
            assert(is_part_at(text, path, k + 1));
        } else {
            let k = choose|k: int|
                0 <= k < path.len() && path[k] == '/' && #[trigger] wild(below, path.skip(k + 1));
            lemma_part_here(text, path, k + 1);
            assert(is_part_at(text, path, k + 1));
        }
    }
    if is_part(text, path) {
        let k = choose|k: int| #[trigger] is_part_at(text, path, k);
        lemma_part_here(text, path, k);
        if k > 0 {
            assert(path[k - 1] == '/');
            assert(path.skip(k) == path.skip((k - 1) + 1));
        }
    }
}

/// A text without `[` whose stars stand right is a pattern, also behind `**/`, and also between
/// `**/` and `/**`.
pub proof fn lemma_deep_patterns(core: Seq<char>)
    requires
        !core.contains('['),
        stars_fit(core),
    ensures
        !at_any_depth(core).contains('['),
        stars_fit(at_any_depth(core)),
        !below_any_depth(core).contains('['),
        stars_fit(below_any_depth(core)),
{
    let deep = at_any_depth(core);
    let below = below_any_depth(core);
    let n = core.len() as int;
    assert forall|i: int| 0 <= i < n implies #[trigger] core[i] == deep[i + 3] && core[i]
        == below[i + 3] by {}
    if deep.contains('[') {
        let i = choose|i: int| 0 <= i < deep.len() && deep[i] == '[';
        assert(core[i - 3] == '[');
    }
    if below.contains('[') {
        let i = choose|i: int| 0 <= i < below.len() && below[i] == '[';
        assert(i < n + 3);
        assert(core[i - 3] == '[');
    }
    assert forall|i: int| #[trigger] two_stars(deep, i) implies (i == 0 || deep[i - 1] == '/') && (i
        + 2 == deep.len() || deep[i + 2] == '/') by {
        if i >= 3 {
            assert(core[i - 3] == '*' && core[i - 2] == '*');
            assert(two_stars(core, i - 3));
            if i > 3 {
                assert(core[i - 4] == deep[i - 1]);
            }
            if i + 2 < deep.len() {
                assert(core[i - 1] == deep[i + 2]);
            }
        }
    }
    assert forall|i: int| #[trigger] two_stars(below, i) implies (i == 0 || below[i - 1] == '/')
        && (i + 2 == below.len() || below[i + 2] == '/') by {
        if 3 <= i < n + 2 {
            assert(core[i - 3] == '*' && core[i - 2] == '*');
            assert(two_stars(core, i - 3));
            if i > 3 {
                assert(core[i - 4] == below[i - 1]);
            }
            if i + 2 < n + 3 {
                assert(core[i - 1] == below[i + 2]);
            }
        }
    }
}

/// A scope without wildcards holds of a path exactly if it stands in it as a part, or as several
/// parts in a row: `/src` holds of whatever lies below a `src`, at any depth.
pub proof fn literal_scopes_are_parts(scope: Seq<char>, path: Seq<char>)
    requires
        scope_core(scope).len() > 0,
        !has_meta(scope_core(scope)),
    ensures
        scope_holds(scope, path) <==> is_part(scope_core(scope), path),
{
    let core = scope_core(scope);
    assert(stars_fit(core)) by {
        assert forall|i: int| !#[trigger] two_stars(core, i) by {
            if two_stars(core, i) {
                assert(core.contains(core[i]));
            }
        }
    }
    lemma_deep_patterns(core);
    lemma_anywhere(core, path);
}

/// An ending with a wildcard asks for the same with a `*` in front as without.
pub proof fn endings_need_no_star(filter: Seq<char>, path: Seq<char>, name: Seq<char>)
    requires
        has_meta(filter),
        filter[0] != '*',
    ensures
        ending_holds(filter, path, name) == ending_holds(seq!['*'] + filter, path, name),
{
    let star = seq!['*'] + filter;
    assert(star[0] == '*');
    assert(star.contains('*'));
    assert(filter.len() > 0);
}

/// An ending with a wildcard, but without `[`, holds of the file names that end in a text that it
/// stands for.
pub proof fn endings_hold_at_the_end(filter: Seq<char>, path: Seq<char>, name: Seq<char>)
    requires
        has_meta(filter),
        !filter.contains('['),
        stars_fit(filter),
        filter[0] != '*',
    ensures
        ending_holds(filter, path, name) <==> exists|k: int|
            0 <= k <= name.len() && wild(filter, #[trigger] name.skip(k)),
{
    let star = ending_pattern(filter);
    assert(star =~= seq!['*'] + filter);
    if star.contains('[') {
        let i = choose|i: int| 0 <= i < star.len() && star[i] == '[';
        assert(filter[i - 1] == '[');
    }
    assert forall|i: int| #[trigger] two_stars(star, i) implies (i == 0 || star[i - 1] == '/') && (i
        + 2 == star.len() || star[i + 2] == '/') by {
        assert(star[i + 1] == filter[i]);
        if i > 0 {
            assert(star[i] == filter[i - 1]);
            assert(two_stars(filter, i - 1));
            if i > 1 {
                assert(star[i - 1] == filter[i - 2]);
            }
            if i + 2 < star.len() {
                assert(star[i + 2] == filter[i + 1]);
            }
        }
    }
    star_is_any_text(filter, name);
}

/// Two ASCII texts differ in the case of letters alone, if at all.
pub open spec fn same_but_for_case(a: Seq<char>, b: Seq<char>) -> bool {
    is_ascii_chars(a) && is_ascii_chars(b) && lower(a) == lower(b)
}

/// Two texts have `/` and `.` at the same places.
spec fn same_marks(a: Seq<char>, b: Seq<char>) -> bool {
    &&& a.len() == b.len()
    &&& forall|i: int| #![trigger a[i]]
        0 <= i < a.len() ==> (a[i] == '/' <==> b[i] == '/') && (a[i] == '.' <==> b[i] == '.')
}

proof fn lemma_same_but_for_case(a: Seq<char>, b: Seq<char>)
    requires
        same_but_for_case(a, b),
    ensures
        same_marks(a, b),
        forall|i: int| #![trigger a[i]]
            0 <= i < a.len() ==> ascii_lower(a[i]) == ascii_lower(b[i]),
{
    assert(lower(a).len() == a.len() && lower(b).len() == b.len());
    assert forall|i: int| #![trigger a[i]] 0 <= i < a.len() implies ascii_lower(a[i])
        == ascii_lower(b[i]) by {
        assert(lower(a)[i] == ascii_lower(a[i]));
        assert(lower(b)[i] == ascii_lower(b[i]));
    }
}

proof fn lemma_same_end(a: Seq<char>, b: Seq<char>, from: int)
    requires
        same_marks(a, b),
        0 <= from,
    ensures
        segment_end(a, from) == segment_end(b, from),
    decreases a.len() - from,
{
    if from < a.len() && a[from] != '/' {
        lemma_same_end(a, b, from + 1);
    }
}

proof fn lemma_marks_alone(a: Seq<char>, b: Seq<char>, t: Seq<char>)
    requires
        same_marks(a, b),
        forall|i: int| #![trigger t[i]] 0 <= i < t.len() ==> t[i] == '/' || t[i] == '.',
    ensures
        a == t <==> b == t,
{
    if a == t {
        assert(b =~= t);
    }
    if b == t {
        assert forall|i: int| 0 <= i < a.len() implies a[i] == t[i] by {
            assert(t[i] == '/' || t[i] == '.');
        }
        assert(a =~= t);
    }
}

proof fn lemma_same_dots(a: Seq<char>, b: Seq<char>, from: int, to: int)
    requires
        same_marks(a, b),
        0 <= from <= to <= a.len(),
    ensures
        a.subrange(from, to) == seq!['.'] <==> b.subrange(from, to) == seq!['.'],
        is_name(a.subrange(from, to)) == is_name(b.subrange(from, to)),
{
    let x = a.subrange(from, to);
    let y = b.subrange(from, to);
    assert forall|i: int| #![trigger x[i]] 0 <= i < x.len() implies (x[i] == '/' <==> y[i] == '/')
        && (x[i] == '.' <==> y[i] == '.') by {
        assert(x[i] == a[from + i]);
        assert(y[i] == b[from + i]);
    }
    lemma_marks_alone(x, y, seq!['/']);
    lemma_marks_alone(x, y, seq!['.']);
    lemma_marks_alone(x, y, seq!['.', '.']);
}

proof fn lemma_same_segments(a: Seq<char>, b: Seq<char>, from: int)
    requires
        same_marks(a, b),
        0 <= from,
    ensures
        segments(a, from) == segments(b, from),
    decreases a.len() - from,
{
    if from < a.len() {
        if a[from] == '/' {
            lemma_same_segments(a, b, from + 1);
        } else {
            lemma_segment_end(a, from);
            lemma_same_end(a, b, from);
            let end = segment_end(a, from);
            lemma_same_dots(a, b, from, end);
            lemma_same_segments(a, b, end);
        }
    }
}

proof fn lemma_same_components(a: Seq<char>, b: Seq<char>)
    requires
        same_marks(a, b),
    ensures
        components(a) == components(b),
{
    lemma_same_segments(a, b, 0);
    lemma_same_segments(a, b, 1);
    if a.len() > 0 {
        assert(a[0] == '/' <==> b[0] == '/');
    }
}

proof fn lemma_part_but_for_case(a: Seq<char>, b: Seq<char>, from: int, to: int)
    requires
        same_but_for_case(a, b),
        0 <= from <= to <= a.len(),
    ensures
        to <= b.len(),
        same_but_for_case(a.subrange(from, to), b.subrange(from, to)),
{
    lemma_same_but_for_case(a, b);
    let x = a.subrange(from, to);
    let y = b.subrange(from, to);
    assert forall|i: int| 0 <= i < x.len() implies '\0' <= #[trigger] x[i] <= '\u{7f}' by {
        assert(x[i] == a[from + i]);
    }
    assert forall|i: int| 0 <= i < y.len() implies '\0' <= #[trigger] y[i] <= '\u{7f}' by {
        assert(y[i] == b[from + i]);
    }
    assert(lower(x) =~= lower(y)) by {
        assert forall|i: int| 0 <= i < x.len() implies lower(x)[i] == lower(y)[i] by {
            assert(ascii_lower(a[from + i]) == ascii_lower(b[from + i]));
        }
    }
}

/// Paths that differ in the case of ASCII letters alone answer the same queries, and equally
/// well.
pub proof fn case_of_paths_does_not_matter(a: Seq<char>, b: Seq<char>, plan: PlanView)
    requires
        same_but_for_case(a, b),
    ensures
        answers(a, plan) == answers(b, plan),
        score_of(a, plan) == score_of(b, plan),
{
    lemma_same_but_for_case(a, b);
    assert(normalized(a) == normalized(b)) by {
        let x = replaced(a, '\\', '/');
        let y = replaced(b, '\\', '/');
        assert forall|i: int| 0 <= i < x.len() implies '\0' <= #[trigger] x[i] <= '\u{7f}' by {
            assert('\0' <= a[i] <= '\u{7f}');
        }
        assert forall|i: int| 0 <= i < y.len() implies '\0' <= #[trigger] y[i] <= '\u{7f}' by {
            assert('\0' <= b[i] <= '\u{7f}');
        }
        assert forall|i: int| 0 <= i < x.len() implies lower(x)[i] == lower(y)[i] by {
            assert(ascii_lower(a[i]) == ascii_lower(b[i]));
        }
        assert(lower(x) =~= lower(y));
    }
    assert(basename(a) == basename(b)) by {
        lemma_same_components(a, b);
        lemma_components(a);
        let n = components(a).len();
        if n > 0 {
            let (from, to) = components(a)[n - 1];
            lemma_same_dots(a, b, from, to);
            lemma_part_but_for_case(a, b, from, to);
        }
    }
}

} // verus!
