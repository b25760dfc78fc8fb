//! What holds of the rows that a search fetches from the index.

use crate::db::{
    conditions, ending_in, fragment, hold_all, hold_ending, hold_fragments, hold_none, holding,
    longest_fragment, parts_pieces, pieces, plain_endings, Condition,
};
use crate::laws::matching::{is_part, is_part_at, lemma_literal_front, literal_scopes_are_parts};
use crate::laws::parsing::{is_ascii_word, lemma_ascii_words};
use crate::laws::results::answers_alone_matter;
use crate::patterns::{at_any_depth, is_whole_tree, lemma_behind_slash, starts_deep, wild};
use crate::query::{
    all_scopes, all_terms, answers, basename, ending_holds, glob_holds, has_meta, no_term,
    normalized, plan_of, scope_core, scope_holds, scope_text, some_ending, PlanView,
};
use crate::ranking::{results_of, MAX_CANDIDATES};
use crate::text::{
    ascii_lower, is_white_space, lemma_words, lower, occurs, occurs_at, replaced, strip, strip_back,
    strip_front, words, CharClass,
};
use vstd::prelude::*;
use vstd::utf8::{encode_utf8, is_ascii_chars};

verus! {

/// SQL `LIKE`: `%` stands for any number of characters, `_` for one, any other character for
/// itself; the case of ASCII letters does not count.
pub open spec fn like(p: Seq<char>, t: Seq<char>) -> bool
    decreases p.len() + t.len(),
{
    if p.len() == 0 {
        t.len() == 0
    } else if p[0] == '%' {
        like(p.drop_first(), t) || (t.len() > 0 && like(p, t.drop_first()))
    } else {
        t.len() > 0 && (p[0] == '_' || ascii_lower(p[0]) == ascii_lower(t[0])) && like(
            p.drop_first(),
            t.drop_first(),
        )
    }
}

/// SQL `LOWER`: ASCII letters in lower case, everything else as it is.
pub open spec fn sql_lower(s: Seq<char>) -> Seq<char> {
    s.map_values(|c: char| ascii_lower(c))
}

/// One of the patterns stands for a text.
pub open spec fn like_any(list: Seq<Seq<char>>, t: Seq<char>) -> bool {
    exists|i: int| 0 <= i < list.len() && like(#[trigger] list[i], t)
}

/// A path meets a condition.
pub open spec fn meets(c: Condition, path: Seq<char>) -> bool {
    match c {
        Condition::Like(p) => like(p, sql_lower(path)),
        Condition::NotLike(p) => !like(p, sql_lower(path)),
        Condition::LikeAny(list) => like_any(list, sql_lower(path)),
    }
}

/// A path meets every condition of a list.
pub open spec fn meets_all(list: Seq<Condition>, path: Seq<char>) -> bool {
    forall|i: int| 0 <= i < list.len() ==> meets(#[trigger] list[i], path)
}

/// A text without capital ASCII letters.
pub open spec fn is_low(s: Seq<char>) -> bool {
    forall|i: int| 0 <= i < s.len() ==> ascii_lower(#[trigger] s[i]) == s[i]
}

/// A path that the index and a query see alike.
pub open spec fn is_simple_path(path: Seq<char>) -> bool {
    normalized(path) == sql_lower(path)
}

/// An excluded term that stands for itself in a `LIKE`.
pub open spec fn is_simple_term(term: Seq<char>) -> bool {
    is_low(term) && !term.contains('%') && !term.contains('_')
}

/// A scope that is compared as it stands: ASCII alone, no capital letter, no white space, no
/// backslash, and no `[`.
pub open spec fn is_simple_scope(scope: Seq<char>) -> bool {
    &&& is_ascii_chars(scope)
    &&& is_low(scope)
    &&& !scope.contains('[')
    &&& !scope.contains('\\')
    &&& forall|i: int| 0 <= i < scope.len() ==> !is_white_space(#[trigger] scope[i])
}

/// A plan that the index and the search see alike: its excluded terms and, where they decide which
/// rows are fetched, its scopes stand for themselves.
pub open spec fn is_simple_plan(plan: PlanView) -> bool {
    &&& forall|i: int|
        0 <= i < plan.exclude_terms.len() ==> is_simple_term(#[trigger] plan.exclude_terms[i])
    &&& plan.include_terms.len() == 0 && plan.ext_filters.len() == 0 ==> forall|i: int|
        0 <= i < plan.path_globs.len() ==> is_simple_scope(#[trigger] plan.path_globs[i])
}

proof fn lemma_like_any(p: Seq<char>, t: Seq<char>)
    ensures
        like(seq!['%'] + p, t) <==> exists|k: int|
            0 <= k <= t.len() && like(p, #[trigger] t.skip(k)),
    decreases t.len(),
{
    let any = seq!['%'] + p;
    assert(any.drop_first() =~= p);
    assert(t.skip(0) =~= t);
    if t.len() > 0 {
        let rest = t.drop_first();
        lemma_like_any(p, rest);
        if like(any, rest) {
            let k = choose|k: int| 0 <= k <= rest.len() && like(p, #[trigger] rest.skip(k));
            assert(rest.skip(k) =~= t.skip(k + 1));
        }
        if exists|k: int| 0 <= k <= t.len() && like(p, #[trigger] t.skip(k)) {
            let k = choose|k: int| 0 <= k <= t.len() && like(p, #[trigger] t.skip(k));
            if k > 0 {
                assert(rest.skip(k - 1) =~= t.skip(k));
            }
        }
    } else if exists|k: int| 0 <= k <= t.len() && like(p, #[trigger] t.skip(k)) {
        let k = choose|k: int| 0 <= k <= t.len() && like(p, #[trigger] t.skip(k));
        assert(k == 0);
    }
}

/// A text is like itself, whatever follows.
proof fn lemma_like_front(f: Seq<char>, rest: Seq<char>, t: Seq<char>)
    requires
        f.is_prefix_of(t),
        like(rest, t.skip(f.len() as int)),
    ensures
        like(f + rest, t),
    decreases f.len(),
{
    if f.len() == 0 {
        assert(f + rest =~= rest);
        assert(t.skip(0) =~= t);
    } else {
        let g = f.drop_first();
        let u = t.drop_first();
        assert(f[0] == t[0]);
        assert(g.is_prefix_of(u)) by {
            assert(u.subrange(0, g.len() as int) =~= g) by {
                assert forall|i: int| 0 <= i < g.len() implies u[i] == g[i] by {
                    assert(t.subrange(0, f.len() as int)[i + 1] == f[i + 1]);
                }
            }
        }
        assert(u.skip(g.len() as int) =~= t.skip(f.len() as int));
        lemma_like_front(g, rest, u);
        assert((f + rest).drop_first() =~= g + rest);
        if f[0] == '%' {
            assert(like(g + rest, u));
            assert(like(f + rest, u));
        }
    }
}

/// A text that stands for itself is like its beginning alone.
proof fn lemma_like_self(f: Seq<char>, rest: Seq<char>, t: Seq<char>)
    requires
        is_simple_term(f),
        is_low(t),
        like(f + rest, t),
    ensures
        f.is_prefix_of(t),
    decreases f.len(),
{
    if f.len() > 0 {
        let g = f.drop_first();
        let u = t.drop_first();
        assert(f.contains(f[0]));
        assert((f + rest)[0] == f[0]);
        assert((f + rest).drop_first() =~= g + rest);
        assert(is_simple_term(g)) by {
            assert forall|i: int| 0 <= i < g.len() implies ascii_lower(#[trigger] g[i])
                == g[i] by {
                assert(g[i] == f[i + 1]);
            }
            assert forall|c: char| !f.contains(c) implies !(#[trigger] g.contains(c)) by {
                if g.contains(c) {
                    let i = choose|i: int| 0 <= i < g.len() && g[i] == c;
                    assert(f[i + 1] == c);
                }
            }
        }
        assert(is_low(u)) by {
            assert forall|i: int| 0 <= i < u.len() implies ascii_lower(#[trigger] u[i])
                == u[i] by {
                assert(u[i] == t[i + 1]);
            }
        }
        lemma_like_self(g, rest, u);
        assert(t.subrange(0, f.len() as int) =~= f) by {
            assert(ascii_lower(f[0]) == f[0] && ascii_lower(t[0]) == t[0]);
            assert forall|i: int| 0 <= i < f.len() implies t[i] == f[i] by {
                if i > 0 {
                    assert(u.subrange(0, g.len() as int)[i - 1] == g[i - 1]);
                }
            }
        }
    }
}

proof fn lemma_like_all(t: Seq<char>)
    ensures
        like(seq!['%'], t),
{
    lemma_like_any(seq![], t);
    assert(seq!['%'] + seq![] =~= seq!['%']);
    assert(t.skip(t.len() as int) =~= seq![]);
    assert(like(seq![], t.skip(t.len() as int)));
}

proof fn lemma_holding(term: Seq<char>, t: Seq<char>)
    ensures
        occurs(t, term) ==> like(holding(term), t),
        is_simple_term(term) && is_low(t) && like(holding(term), t) ==> occurs(t, term),
{
    let rest = term + seq!['%'];
    assert(holding(term) =~= seq!['%'] + rest);
    lemma_like_any(rest, t);
    if occurs(t, term) {
        let at = choose|at: int| occurs_at(t, term, at);
        let u = t.skip(at);
        assert(u.subrange(0, term.len() as int) =~= t.subrange(at, at + term.len()));
        lemma_like_all(u.skip(term.len() as int));
        lemma_like_front(term, seq!['%'], u);
    }
    if is_simple_term(term) && is_low(t) && like(holding(term), t) {
        let k = choose|k: int| 0 <= k <= t.len() && like(rest, #[trigger] t.skip(k));
        let u = t.skip(k);
        assert(is_low(u)) by {
            assert forall|i: int| 0 <= i < u.len() implies ascii_lower(#[trigger] u[i])
                == u[i] by {
                assert(u[i] == t[k + i]);
            }
        }
        lemma_like_self(term, seq!['%'], u);
        assert(t.subrange(k, k + term.len()) =~= u.subrange(0, term.len() as int));
        assert(occurs_at(t, term, k));
    }
}

proof fn lemma_ending(ending: Seq<char>, t: Seq<char>)
    requires
        ending.is_suffix_of(t),
    ensures
        like(ending_in(ending), t),
{
    let k = t.len() - ending.len();
    let u = t.skip(k);
    assert(u =~= ending);
    assert(u.subrange(0, ending.len() as int) =~= ending);
    assert(u.skip(ending.len() as int) =~= seq![]);
    lemma_like_front(ending, seq![], u);
    assert(ending + seq![] =~= ending);
    lemma_like_any(ending, t);
    assert(like(ending, t.skip(k)));
}

/// The index and a query see a path of ASCII characters alike, unless it holds a backslash.
pub proof fn ascii_paths_are_simple(path: Seq<char>)
    requires
        is_ascii_chars(path),
        !path.contains('\\'),
    ensures
        is_simple_path(path),
{
    assert(replaced(path, '\\', '/') =~= path) by {
        assert forall|i: int| 0 <= i < path.len() implies path[i] != '\\' by {
            assert(path.contains(path[i]));
        }
    }
}

/// A literal part of a pattern that does not start with `/` stands in every text that the pattern
/// stands for.
proof fn lemma_literal_part(p: Seq<char>, t: Seq<char>, f: Seq<char>, at: int)
    requires
        wild(p, t),
        occurs_at(p, f, at),
        f.len() > 0,
        f[0] != '/',
        !f.contains('*'),
        !f.contains('?'),
    ensures
        occurs(t, f),
    decreases p.len(), t.len(),
{
    assert(p.subrange(at, at + f.len())[0] == p[at]);
    assert(f.contains(f[0]));
    assert(p[at] == f[0]);
    if is_whole_tree(p) {
        assert(false);
    } else if starts_deep(p) {
        let q = p.skip(3);
        assert(q.subrange(at - 3, at - 3 + f.len()) =~= p.subrange(at, at + f.len()));
        if wild(q, t) {
            lemma_literal_part(q, t, f, at - 3);
        } else {
            let k = lemma_behind_slash(t);
            lemma_literal_part(p, t.skip(k + 1), f, at);
            lemma_further_on(t, k + 1, f);
        }
    } else if at == 0 {
        assert(p.subrange(0, f.len() as int) =~= f);
        let rest = p.skip(f.len() as int);
        assert(p =~= f + rest);
        lemma_literal_front(f, rest, t);
        assert(t.subrange(0, f.len() as int) =~= t.take(f.len() as int));
        assert(occurs_at(t, f, 0));
    } else if p[0] == '*' && !wild(p.drop_first(), t) {
        let u = t.drop_first();
        lemma_literal_part(p, u, f, at);
        lemma_further_on(t, 1, f);
    } else {
        let q = p.drop_first();
        assert(q.subrange(at - 1, at - 1 + f.len()) =~= p.subrange(at, at + f.len()));
        if p[0] == '*' {
            lemma_literal_part(q, t, f, at - 1);
        } else {
            lemma_literal_part(q, t.drop_first(), f, at - 1);
            lemma_further_on(t, 1, f);
        }
    }
}

proof fn lemma_further_on(t: Seq<char>, k: int, f: Seq<char>)
    requires
        0 <= k <= t.len(),
        occurs(t.skip(k), f),
    ensures
        occurs(t, f),
{
    let at = choose|at: int| occurs_at(t.skip(k), f, at);
    assert(t.subrange(at + k, at + k + f.len()) =~= t.skip(k).subrange(at, at + f.len()));
    assert(occurs_at(t, f, at + k));
}

/// What is left of a text once it is stripped.
proof fn lemma_strip(s: Seq<char>, class: CharClass) -> (r: (int, int))
    ensures
        0 <= r.0 <= r.1 <= s.len(),
        strip(s, class) == s.subrange(r.0, r.1),
        forall|i: int| 0 <= i < r.0 ==> class.has(#[trigger] s[i]),
        forall|i: int| r.1 <= i < s.len() ==> class.has(#[trigger] s[i]),
        r.0 < r.1 ==> !class.has(s[r.0]) && !class.has(s[r.1 - 1]),
{
    let l = lemma_strip_front(s, class);
    let u = strip_front(s, class);
    let n = lemma_strip_back(u, class);
    assert(u =~= s.skip(l));
    assert(u.take(n) =~= s.subrange(l, l + n));
    assert forall|i: int| l + n <= i < s.len() implies class.has(#[trigger] s[i]) by {
        assert(u[i - l] == s[i]);
    }
    if n > 0 {
        assert(u[0] == s[l]);
        assert(u[n - 1] == s[l + n - 1]);
    }
    (l, l + n)
}

proof fn lemma_strip_front(s: Seq<char>, class: CharClass) -> (l: int)
    ensures
        0 <= l <= s.len(),
        strip_front(s, class) == s.skip(l),
        forall|i: int| 0 <= i < l ==> class.has(#[trigger] s[i]),
        l < s.len() ==> !class.has(s[l]),
    decreases s.len(),
{
    if s.len() > 0 && class.has(s[0]) {
        let l = lemma_strip_front(s.drop_first(), class);
        assert(s.drop_first().skip(l) =~= s.skip(l + 1));
        assert forall|i: int| 0 <= i < l + 1 implies class.has(#[trigger] s[i]) by {
            if i > 0 {
                assert(s.drop_first()[i - 1] == s[i]);
            }
        }
        l + 1
    } else {
        assert(s.skip(0) =~= s);
        0
    }
}

proof fn lemma_strip_back(s: Seq<char>, class: CharClass) -> (n: int)
    ensures
        0 <= n <= s.len(),
        strip_back(s, class) == s.take(n),
        forall|i: int| n <= i < s.len() ==> class.has(#[trigger] s[i]),
        n > 0 ==> !class.has(s[n - 1]),
        s.len() > 0 && !class.has(s[0]) ==> n > 0,
    decreases s.len(),
{
    if s.len() > 0 && class.has(s.last()) {
        let n = lemma_strip_back(s.drop_last(), class);
        assert(s.drop_last().take(n) =~= s.take(n));
        assert forall|i: int| n <= i < s.len() implies class.has(#[trigger] s[i]) by {
            if i < s.len() - 1 {
                assert(s.drop_last()[i] == s[i]);
            }
        }
        n
    } else {
        assert(s.take(s.len() as int) =~= s);
        s.len() as int
    }
}

/// Every piece of a pattern stands in it and holds no wildcard.
proof fn lemma_pieces(s: Seq<char>)
    ensures
        pieces(s).len() > 0,
        pieces(s).last().is_suffix_of(s),
        forall|i: int| 0 <= i < pieces(s).len() ==> occurs(s, #[trigger] pieces(s)[i]),
        forall|i: int, k: int|
            0 <= i < pieces(s).len() && 0 <= k < pieces(s)[i].len() ==> !parts_pieces(
                #[trigger] pieces(s)[i][k],
            ),
    decreases s.len(),
{
    if s.len() == 0 {
        assert(pieces(s)[0] =~= s);
        assert(s.subrange(0, 0) =~= s);
        assert(occurs_at(s, pieces(s)[0], 0));
    } else {
        let first = s.drop_last();
        let before = pieces(first);
        let all = pieces(s);
        lemma_pieces(first);
        assert(s =~= first.push(s.last()));
        assert forall|i: int| 0 <= i < all.len() implies occurs(s, #[trigger] all[i]) by {
            if i < all.len() - 1 {
                assert(all[i] == before[i]);
                let at = choose|at: int| occurs_at(first, before[i], at);
                assert(s.subrange(at, at + before[i].len()) =~= first.subrange(
                    at,
                    at + before[i].len(),
                ));
                assert(occurs_at(s, all[i], at));
            } else if parts_pieces(s.last()) {
                assert(s.subrange(0, 0) =~= all[i]);
                assert(occurs_at(s, all[i], 0));
            } else {
                let w = before.last();
                let at = first.len() - w.len();
                assert(first.subrange(at, first.len() as int) =~= w);
                assert(s.subrange(at, s.len() as int) =~= w.push(s.last()));
                assert(occurs_at(s, all[i], at));
            }
        }
        if parts_pieces(s.last()) {
            assert(s.subrange(s.len() as int, s.len() as int) =~= all.last());
        } else {
            let w = before.last();
            let at = first.len() - w.len();
            assert(first.subrange(at, first.len() as int) =~= w);
            assert(s.subrange(at, s.len() as int) =~= w.push(s.last()));
        }
        assert forall|i: int, k: int|
            0 <= i < all.len() && 0 <= k < all[i].len() implies !parts_pieces(
            #[trigger] all[i][k],
        ) by {
            if i < all.len() - 1 {
                assert(!parts_pieces(before[i][k]));
            } else if !parts_pieces(s.last()) {
                let w = before.last();
                if k < w.len() {
                    assert(!parts_pieces(before[before.len() - 1][k]));
                }
            }
        }
    }
}

proof fn lemma_longest(list: Seq<Seq<char>>) -> (k: int)
    requires
        longest_fragment(list) is Some,
    ensures
        0 <= k < list.len(),
        longest_fragment(list) == Some(fragment(list[k])),
        encode_utf8(fragment(list[k])).len() >= 2,
    decreases list.len(),
{
    let next = fragment(list.last());
    if encode_utf8(next).len() >= 2 && longest_fragment(list) == Some(next) {
        list.len() - 1
    } else {
        lemma_longest(list.drop_last())
    }
}

/// Where the literal fragment of a scope stands in it.
proof fn lemma_fragment_place(scope: Seq<char>) -> (r: (int, int))
    requires
        is_simple_scope(scope),
        longest_fragment(pieces(scope)) is Some,
    ensures
        0 <= r.0 < r.1 <= scope.len(),
        longest_fragment(pieces(scope)) == Some(scope.subrange(r.0, r.1)),
        scope[r.0] != '/',
        scope[r.1 - 1] != '/',
        forall|i: int| r.0 <= i < r.1 ==> !parts_pieces(#[trigger] scope[i]),
{
    let k = lemma_longest(pieces(scope));
    let piece = pieces(scope)[k];
    lemma_pieces(scope);
    let at = choose|at: int| occurs_at(scope, piece, at);
    assert(scope.subrange(at, at + piece.len()) == piece);
    let (a, b) = lemma_strip(piece, CharClass::Only('/'));
    let f = piece.subrange(a, b);
    assert forall|i: int| 0 <= i < piece.len() implies #[trigger] piece[i] == scope[at + i] by {
        assert(scope.subrange(at, at + piece.len())[i] == scope[at + i]);
    }
    assert(f =~= scope.subrange(at + a, at + b));
    assert(is_ascii_chars(f)) by {
        assert forall|i: int| 0 <= i < f.len() implies '\0' <= #[trigger] f[i] <= '\u{7f}' by {
            assert(f[i] == scope[at + a + i]);
        }
    }
    assert(lower(f) =~= f) by {
        assert forall|i: int| 0 <= i < f.len() implies ascii_lower(#[trigger] f[i]) == f[i] by {
            assert(f[i] == scope[at + a + i]);
        }
    }
    if f.len() == 0 {
        assert(f =~= seq![]);
        assert(encode_utf8(f).len() == 0);
    }
    assert(piece[a] == scope[at + a]);
    assert(piece[b - 1] == scope[at + b - 1]);
    assert forall|i: int| at + a <= i < at + b implies !parts_pieces(#[trigger] scope[i]) by {
        assert(!parts_pieces(pieces(scope)[k][i - at]));
        assert(piece[i - at] == scope[i]);
    }
    (at + a, at + b)
}

/// The literal fragment of a scope stands in every path that the scope holds of.
proof fn lemma_fragment(scope: Seq<char>, t: Seq<char>)
    requires
        is_simple_scope(scope),
        scope_holds(scope, t),
        longest_fragment(pieces(scope)) is Some,
    ensures
        occurs(t, longest_fragment(pieces(scope))->0),
{
    let (x, y) = lemma_fragment_place(scope);
    let f = scope.subrange(x, y);
    lemma_scope_text(scope);
    let core = scope_core(scope);
    let (l, r) = lemma_strip(scope, CharClass::Only('/'));
    assert(l <= x && y <= r) by {
        if x < l {
            assert(scope[x] == '/');
        }
        if y > r {
            assert(scope[y - 1] == '/');
        }
    }
    assert(core.subrange(x - l, y - l) =~= f);
    assert(occurs_at(core, f, x - l));
    assert(occurs_at(scope, f, x));
    assert forall|c: char| parts_pieces(c) implies !(#[trigger] f.contains(c)) by {
        if f.contains(c) {
            let i = choose|i: int| 0 <= i < f.len() && f[i] == c;
            assert(scope[x + i] == c);
        }
    }
    if has_meta(core) {
        assert(f[0] == scope[x]);
        lemma_no_class(scope, l, r);
        lemma_fragment_of_pattern(scope, core, t, f, x, x - l);
    } else {
        literal_scopes_are_parts(scope, t);
        lemma_fragment_of_part(core, t, f, x - l);
    }
}

proof fn lemma_fragment_of_part(core: Seq<char>, t: Seq<char>, f: Seq<char>, x: int)
    requires
        is_part(core, t),
        occurs_at(core, f, x),
    ensures
        occurs(t, f),
{
    let j = choose|j: int| #[trigger] is_part_at(core, t, j);
    let here = t.subrange(j, j + core.len());
    assert(here == core);
    assert(t.subrange(j + x, j + x + f.len()) =~= here.subrange(x, x + f.len()));
    assert(occurs_at(t, f, j + x));
}

proof fn lemma_no_class(scope: Seq<char>, l: int, r: int)
    requires
        !scope.contains('['),
        0 <= l <= r <= scope.len(),
    ensures
        !scope.subrange(l, r).contains('['),
        !at_any_depth(scope.subrange(l, r)).contains('['),
{
    let core = scope.subrange(l, r);
    let deep = at_any_depth(core);
    if core.contains('[') {
        let i = choose|i: int| 0 <= i < core.len() && core[i] == '[';
        assert(scope[l + i] == '[');
    }
    if deep.contains('[') {
        let i = choose|i: int| 0 <= i < deep.len() && deep[i] == '[';
        assert(core[i - 3] == '[');
    }
}

proof fn lemma_fragment_of_pattern(
    scope: Seq<char>,
    core: Seq<char>,
    t: Seq<char>,
    f: Seq<char>,
    x: int,
    y: int,
)
    requires
        !scope.contains('['),
        !core.contains('['),
        !at_any_depth(core).contains('['),
        glob_holds(scope, t) || glob_holds(core, t) || glob_holds(at_any_depth(core), t),
        occurs_at(scope, f, x),
        occurs_at(core, f, y),
        f.len() > 0,
        f[0] != '/',
        !f.contains('*'),
        !f.contains('?'),
    ensures
        occurs(t, f),
{
    if glob_holds(scope, t) {
        lemma_literal_part(scope, t, f, x);
    } else if glob_holds(core, t) {
        lemma_literal_part(core, t, f, y);
    } else {
        let deep = at_any_depth(core);
        assert(deep.subrange(y + 3, y + 3 + f.len()) =~= core.subrange(y, y + f.len()));
        lemma_literal_part(deep, t, f, y + 3);
    }
}

proof fn lemma_scope_text(scope: Seq<char>)
    requires
        is_simple_scope(scope),
    ensures
        scope_text(scope) == scope,
        scope_core(scope) == strip(scope, CharClass::Only('/')),
{
    assert(strip(scope, CharClass::WhiteSpace) == scope) by {
        let (l, r) = lemma_strip(scope, CharClass::WhiteSpace);
        if l > 0 {
            assert(!is_white_space(scope[0]));
        }
        if r < scope.len() {
            assert(!is_white_space(scope[r]));
        }
        assert(scope.subrange(l, r) =~= scope);
    }
    assert(replaced(scope, '\\', '/') == scope) by {
        assert forall|i: int| 0 <= i < scope.len() implies scope[i] != '\\' by {
            assert(scope.contains(scope[i]));
        }
        assert(replaced(scope, '\\', '/') =~= scope);
    }
    assert(lower(scope) =~= scope) by {
        assert forall|i: int| 0 <= i < scope.len() implies #[trigger] lower(scope)[i]
            == scope[i] by {
            assert(ascii_lower(scope[i]) == scope[i]);
        }
    }
}

proof fn lemma_terms(terms: Seq<Seq<char>>, path: Seq<char>)
    requires
        is_simple_path(path),
        all_terms(terms, normalized(path)),
    ensures
        meets_all(hold_all(terms), path),
{
    assert(is_low(sql_lower(path)));
    assert forall|i: int| 0 <= i < hold_all(terms).len() implies meets(
        #[trigger] hold_all(terms)[i],
        path,
    ) by {
        assert(occurs(normalized(path), terms[i]));
        lemma_holding(terms[i], sql_lower(path));
    }
}

proof fn lemma_excluded(terms: Seq<Seq<char>>, path: Seq<char>, name: Seq<char>)
    requires
        is_simple_path(path),
        no_term(terms, normalized(path), name),
        forall|i: int| 0 <= i < terms.len() ==> is_simple_term(#[trigger] terms[i]),
    ensures
        meets_all(hold_none(terms), path),
{
    assert(is_low(sql_lower(path)));
    assert forall|i: int| 0 <= i < hold_none(terms).len() implies meets(
        #[trigger] hold_none(terms)[i],
        path,
    ) by {
        assert(!occurs(normalized(path), terms[i]));
        lemma_holding(terms[i], sql_lower(path));
    }
}

proof fn lemma_plain_endings(endings: Seq<Seq<char>>, i: int) -> (k: int)
    requires
        0 <= i < endings.len(),
        !has_meta(endings[i]),
    ensures
        0 <= k < plain_endings(endings).len(),
        plain_endings(endings)[k] == ending_in(endings[i]),
    decreases endings.len(),
{
    if i == endings.len() - 1 {
        plain_endings(endings).len() - 1
    } else {
        lemma_plain_endings(endings.drop_last(), i)
    }
}

/// An ending with a wildcard is not among the plain ones.
proof fn lemma_fewer_plain_endings(endings: Seq<Seq<char>>, i: int)
    requires
        0 <= i < endings.len(),
        has_meta(endings[i]),
    ensures
        plain_endings(endings).len() < endings.len(),
    decreases endings.len(),
{
    lemma_plain_endings_len(endings.drop_last());
    if i < endings.len() - 1 {
        lemma_fewer_plain_endings(endings.drop_last(), i);
    }
}

proof fn lemma_plain_endings_len(endings: Seq<Seq<char>>)
    ensures
        plain_endings(endings).len() <= endings.len(),
    decreases endings.len(),
{
    if endings.len() > 0 {
        lemma_plain_endings_len(endings.drop_last());
    }
}

proof fn lemma_endings(endings: Seq<Seq<char>>, path: Seq<char>, name: Seq<char>)
    requires
        is_simple_path(path),
        endings.len() > 0,
        some_ending(endings, normalized(path), name),
    ensures
        meets_all(hold_ending(endings), path),
{
    assert(is_low(sql_lower(path)));
    let i = choose|i: int|
        0 <= i < endings.len() && ending_holds(#[trigger] endings[i], normalized(path), name);
    if has_meta(endings[i]) {
        lemma_fewer_plain_endings(endings, i);
    } else {
        let k = lemma_plain_endings(endings, i);
        lemma_ending(endings[i], sql_lower(path));
        assert(like(plain_endings(endings)[k], sql_lower(path)));
        assert(like_any(plain_endings(endings), sql_lower(path)));
        if hold_ending(endings).len() > 0 {
            assert(hold_ending(endings)[0] == Condition::LikeAny(plain_endings(endings)));
        }
    }
}

proof fn lemma_scopes(scopes: Seq<Seq<char>>, path: Seq<char>)
    requires
        is_simple_path(path),
        all_scopes(scopes, normalized(path)),
        forall|i: int| 0 <= i < scopes.len() ==> is_simple_scope(#[trigger] scopes[i]),
    ensures
        meets_all(hold_fragments(scopes), path),
    decreases scopes.len(),
{
    if scopes.len() > 0 {
        let first = scopes.drop_last();
        assert forall|i: int| 0 <= i < first.len() implies scope_holds(
            #[trigger] first[i],
            normalized(path),
        ) && is_simple_scope(first[i]) by {
            assert(scopes[i] == first[i]);
        }
        lemma_scopes(first, path);
        let last = scopes[scopes.len() - 1];
        assert(scope_holds(last, normalized(path)));
        if longest_fragment(pieces(last)) is Some {
            lemma_fragment(last, normalized(path));
            lemma_holding(longest_fragment(pieces(last))->0, sql_lower(path));
        }
    }
}

/// The conditions under which rows are fetched keep every path that answers a query: what the
/// search would find is not lost on the way.
///
/// This holds of paths that the index and the query see alike, and of queries whose excluded
/// terms and scopes stand for themselves.
pub proof fn fetching_keeps_every_answer(path: Seq<char>, plan: PlanView)
    requires
        answers(path, plan),
        is_simple_path(path),
        is_simple_plan(plan),
    ensures
        meets_all(conditions(plan), path),
{
    let name = basename(path);
    let first = if plan.include_terms.len() > 0 {
        hold_all(plan.include_terms)
    } else if plan.ext_filters.len() > 0 {
        hold_ending(plan.ext_filters)
    } else {
        hold_fragments(plan.path_globs)
    };
    if plan.include_terms.len() > 0 {
        lemma_terms(plan.include_terms, path);
    } else if plan.ext_filters.len() > 0 {
        lemma_endings(plan.ext_filters, path, name);
    } else {
        lemma_scopes(plan.path_globs, path);
    }
    lemma_excluded(plan.exclude_terms, path, name);
    let second = hold_none(plan.exclude_terms);
    assert forall|i: int| 0 <= i < conditions(plan).len() implies meets(
        #[trigger] conditions(plan)[i],
        path,
    ) by {
        if i < first.len() {
            assert(conditions(plan)[i] == first[i]);
        } else {
            assert(conditions(plan)[i] == second[i - first.len()]);
        }
    }
}

/// The rows that the index gives for a plan: those that it holds and that meet the conditions,
/// in any order.
pub open spec fn fetches(
    stored: Seq<Seq<char>>,
    plan: PlanView,
    fetched: Seq<Seq<char>>,
) -> bool {
    forall|path: Seq<char>| #[trigger]
        fetched.to_multiset().count(path) == (if meets_all(conditions(plan), path) {
            stored.to_multiset().count(path)
        } else {
            0
        })
}

/// A search finds what it would find among all that the index holds: no answer is missed, and
/// none that is left out ranks before one that shows. This holds as long as the index holds no
/// more paths than a search looks at.
pub proof fn searches_miss_nothing(
    stored: Seq<Seq<char>>,
    fetched: Seq<Seq<char>>,
    plan: PlanView,
)
    requires
        stored.len() <= MAX_CANDIDATES,
        fetches(stored, plan, fetched),
        is_simple_plan(plan),
        forall|i: int| 0 <= i < stored.len() ==> is_simple_path(#[trigger] stored[i]),
    ensures
        results_of(fetched, plan) == results_of(stored, plan),
{
    broadcast use vstd::seq_lib::group_to_multiset_ensures;
    broadcast use vstd::multiset::group_multiset_axioms;

    assert(fetched.to_multiset().subset_of(stored.to_multiset()));
    assert(fetched.len() == fetched.to_multiset().len());
    assert(stored.len() == stored.to_multiset().len());
    assert(stored.to_multiset().sub(fetched.to_multiset()).len() == stored.len() - fetched.len());
    assert forall|path: Seq<char>| answers(path, plan) implies #[trigger] fetched.to_multiset()
        .count(path) == stored.to_multiset().count(path) by {
        if stored.to_multiset().count(path) > 0 {
            assert(stored.contains(path));
            let i = choose|i: int| 0 <= i < stored.len() && stored[i] == path;
            assert(is_simple_path(stored[i]));
            fetching_keeps_every_answer(path, plan);
        }
    }
    answers_alone_matter(fetched, stored, plan);
}

/// A text of low ASCII characters that are neither white space nor a backslash.
pub open spec fn is_plain_text(s: Seq<char>) -> bool {
    &&& is_ascii_chars(s)
    &&& is_low(s)
    &&& !s.contains('\\')
    &&& forall|i: int| 0 <= i < s.len() ==> !is_white_space(#[trigger] s[i])
}

proof fn lemma_plain_text(token: Seq<char>, from: int)
    requires
        is_ascii_word(token),
        !token.contains('\\'),
        0 <= from <= token.len(),
    ensures
        is_plain_text(lower(token.skip(from))),
{
    let s = token.skip(from);
    assert forall|i: int| 0 <= i < s.len() implies '\0' <= #[trigger] s[i] <= '\u{7f}'
        && !is_white_space(s[i]) && s[i] != '\\' by {
        assert(s[i] == token[from + i]);
        assert(token.contains(token[from + i]));
    }
    let low = lower(s);
    assert forall|i: int| 0 <= i < low.len() implies #[trigger] low[i] == ascii_lower(s[i]) by {}
    if low.contains('\\') {
        let i = choose|i: int| 0 <= i < low.len() && low[i] == '\\';
        assert(ascii_lower(s[i]) == '\\');
    }
}

/// What the lists of a plan hold that decide by more than what they are.
spec fn is_plain_plan(plan: PlanView) -> bool {
    &&& forall|i: int| #![trigger plan.exclude_terms[i]]
        0 <= i < plan.exclude_terms.len() ==> is_plain_text(plan.exclude_terms[i])
    &&& forall|i: int| #![trigger plan.path_globs[i]]
        0 <= i < plan.path_globs.len() ==> is_plain_text(plan.path_globs[i])
}

proof fn lemma_plain_plan(tokens: Seq<Seq<char>>)
    requires
        forall|i: int| #![trigger tokens[i]]
            0 <= i < tokens.len() ==> is_ascii_word(tokens[i]) && !tokens[i].contains('\\'),
    ensures
        is_plain_plan(plan_of(tokens)),
    decreases tokens.len(),
{
    if tokens.len() > 0 {
        let first = tokens.drop_last();
        assert forall|i: int| #![trigger first[i]] 0 <= i < first.len() implies first[i]
            == tokens[i] by {}
        lemma_plain_plan(first);
        let token = tokens[tokens.len() - 1];
        lemma_plain_text(token, 0);
        lemma_plain_text(token, 1);
        assert(token.skip(0) =~= token);
    }
}

/// A search for an ASCII text among ASCII paths misses nothing, as long as there is no backslash
/// in either, no `%` or `_` in an excluded term, and no `[` in a scope.
pub proof fn ascii_searches_miss_nothing(
    term: Seq<char>,
    stored: Seq<Seq<char>>,
    fetched: Seq<Seq<char>>,
)
    requires
        stored.len() <= MAX_CANDIDATES,
        fetches(stored, plan_of(words(term)), fetched),
        is_ascii_chars(term),
        !term.contains('\\'),
        forall|i: int|
            0 <= i < stored.len() ==> is_ascii_chars(#[trigger] stored[i]) && !stored[i].contains(
                '\\',
            ),
        forall|i: int| #![trigger plan_of(words(term)).exclude_terms[i]]
            0 <= i < plan_of(words(term)).exclude_terms.len() ==> !plan_of(
                words(term),
            ).exclude_terms[i].contains('%') && !plan_of(words(term)).exclude_terms[i].contains(
                '_',
            ),
        forall|i: int| #![trigger plan_of(words(term)).path_globs[i]]
            0 <= i < plan_of(words(term)).path_globs.len() ==> !plan_of(
                words(term),
            ).path_globs[i].contains('['),
    ensures
        results_of(fetched, plan_of(words(term))) == results_of(stored, plan_of(words(term))),
{
    let plan = plan_of(words(term));
    lemma_words(term);
    lemma_ascii_words(term);
    assert forall|i: int| #![trigger words(term)[i]] 0 <= i < words(term).len() implies !words(
        term,
    )[i].contains('\\') by {
        if words(term)[i].contains('\\') {
            let k = choose|k: int| 0 <= k < words(term)[i].len() && words(term)[i][k] == '\\';
            assert(term.contains(words(term)[i][k]));
        }
    }
    lemma_plain_plan(words(term));
    assert forall|i: int| 0 <= i < stored.len() implies is_simple_path(#[trigger] stored[i]) by {
        ascii_paths_are_simple(stored[i]);
    }
    assert(is_simple_plan(plan)) by {
        assert forall|i: int| 0 <= i < plan.exclude_terms.len() implies is_simple_term(
            #[trigger] plan.exclude_terms[i],
        ) by {
            assert(is_plain_text(plan.exclude_terms[i]));
        }
        assert forall|i: int| 0 <= i < plan.path_globs.len() implies is_simple_scope(
            #[trigger] plan.path_globs[i],
        ) by {
            assert(is_plain_text(plan.path_globs[i]));
        }
    }
    searches_miss_nothing(stored, fetched, plan);
}

} // verus!
