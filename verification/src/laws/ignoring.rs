//! What holds of everything that is left out of the index, and of everything that is not.

use crate::config::default_ignore;
use crate::indexing::{to_visit, visit_of, EntryView, Visit};
use crate::laws::matching::{
    lemma_literal_front, star_is_any_text, two_stars_are_any_depth,
    two_stars_at_the_end_are_anything,
};
use crate::laws::places::{under_is_by_names, what_is_left_is_behind_the_base, within};
use crate::paths::{names, relative_to};
use crate::patterns::{accepts, at_any_depth, below_any_depth, syntax_error, wild};
use crate::watcher::ignore::{any_accepts, first_error, ignored};
use vstd::prelude::*;

verus! {

/// More patterns leave out more: a path is left out by two lists of patterns if it is left out by
/// one of them, and by no pattern if there is none.
pub proof fn every_pattern_leaves_out(
    path: Seq<char>,
    roots: Seq<Seq<char>>,
    a: Seq<Seq<char>>,
    b: Seq<Seq<char>>,
)
    ensures
        ignored(path, roots, a + b) <==> ignored(path, roots, a) || ignored(path, roots, b),
        !ignored(path, roots, seq![]),
{
    lemma_any(a, b, path);
    assert forall|rest: Seq<char>| #[trigger] any_accepts(a + b, rest) <==> any_accepts(a, rest)
        || any_accepts(b, rest) by {
        lemma_any(a, b, rest);
    }
    if ignored(path, roots, a) && !any_accepts(a, path) {
        let i = choose|i: int|
            0 <= i < roots.len() && (relative_to(path, #[trigger] roots[i]) matches Some(rest)
                && any_accepts(a, rest));
        assert(any_accepts(a + b, relative_to(path, roots[i])->0));
    }
    if ignored(path, roots, b) && !any_accepts(b, path) {
        let i = choose|i: int|
            0 <= i < roots.len() && (relative_to(path, #[trigger] roots[i]) matches Some(rest)
                && any_accepts(b, rest));
        assert(any_accepts(a + b, relative_to(path, roots[i])->0));
    }
}

proof fn lemma_any(a: Seq<Seq<char>>, b: Seq<Seq<char>>, text: Seq<char>)
    ensures
        any_accepts(a + b, text) <==> any_accepts(a, text) || any_accepts(b, text),
{
    let all = a + b;
    if any_accepts(all, text) {
        let i = choose|i: int| 0 <= i < all.len() && accepts(#[trigger] all[i], text);
        if i < a.len() {
            assert(accepts(a[i], text));
        } else {
            assert(accepts(b[i - a.len()], text));
        }
    }
    if any_accepts(a, text) {
        let i = choose|i: int| 0 <= i < a.len() && accepts(#[trigger] a[i], text);
        assert(all[i] == a[i]);
    }
    if any_accepts(b, text) {
        let i = choose|i: int| 0 <= i < b.len() && accepts(#[trigger] b[i], text);
        assert(all[a.len() + i] == b[i]);
    }
}

/// A pattern leaves out a path that it accepts as a whole, and one that it accepts as seen from
/// one of the locations that it lies under; and no other.
pub proof fn patterns_are_tried_from_every_location(
    path: Seq<char>,
    a: Seq<Seq<char>>,
    b: Seq<Seq<char>>,
    root: Seq<char>,
    pattern: Seq<char>,
)
    ensures
        ignored(path, seq![], seq![pattern]) <==> accepts(pattern, path),
        ignored(path, a + b, seq![pattern]) <==> ignored(path, a, seq![pattern]) || ignored(
            path,
            b,
            seq![pattern],
        ),
        ignored(path, seq![root], seq![pattern]) <==> accepts(pattern, path) || (names(
            root,
        ).is_prefix_of(names(path)) && accepts(pattern, relative_to(path, root)->0)),
{
    let one = seq![pattern];
    assert(one[0] == pattern);
    assert forall|t: Seq<char>| #[trigger] any_accepts(one, t) <==> accepts(pattern, t) by {
        if accepts(pattern, t) {
            assert(accepts(one[0], t));
        }
    }
    under_is_by_names(path, root);
    if ignored(path, a, one) && !any_accepts(one, path) {
        let i = choose|i: int|
            0 <= i < a.len() && (relative_to(path, #[trigger] a[i]) matches Some(rest)
                && any_accepts(one, rest));
        assert((a + b)[i] == a[i]);
    }
    if ignored(path, b, one) && !any_accepts(one, path) {
        let i = choose|i: int|
            0 <= i < b.len() && (relative_to(path, #[trigger] b[i]) matches Some(rest)
                && any_accepts(one, rest));
        assert((a + b)[a.len() + i] == b[i]);
    }
    if ignored(path, a + b, one) && !any_accepts(one, path) {
        let all = a + b;
        let i = choose|i: int|
            0 <= i < all.len() && (relative_to(path, #[trigger] all[i]) matches Some(rest)
                && any_accepts(one, rest));
        if i < a.len() {
            assert(all[i] == a[i]);
        } else {
            assert(all[i] == b[i - a.len()]);
        }
    }
    if accepts(pattern, relative_to(path, root)->0) && relative_to(path, root) is Some {
        assert(relative_to(path, seq![root][0]) is Some);
        assert(any_accepts(one, relative_to(path, root)->0));
    }
}

/// A name that a pattern accepts is left out in every location.
pub proof fn accepted_names_are_left_out(root: Seq<char>, name: Seq<char>, pattern: Seq<char>)
    requires
        root.len() > 0,
        name.len() > 0,
        !name.contains('/'),
        name != seq!['.'],
        accepts(pattern, name),
    ensures
        ignored(within(root, name), seq![root], seq![pattern]),
{
    what_is_left_is_behind_the_base(root, name, root);
    patterns_are_tried_from_every_location(within(root, name), seq![], seq![], root, pattern);
    under_is_by_names(within(root, name), root);
}

/// The error of a list of patterns is that of the first text in it that is none.
pub proof fn the_first_error_counts(list: Seq<Seq<char>>)
    ensures
        match first_error(list) {
            None => forall|i: int| 0 <= i < list.len() ==> syntax_error(#[trigger] list[i]) is None,
            Some(e) => exists|k: int|
                #![trigger list[k]]
                0 <= k < list.len() && syntax_error(list[k]) == Some(e) && forall|i: int|
                    0 <= i < k ==> syntax_error(#[trigger] list[i]) is None,
        },
    decreases list.len(),
{
    if list.len() > 0 {
        let first = list.drop_last();
        the_first_error_counts(first);
        assert forall|i: int| #![trigger list[i]] 0 <= i < first.len() implies first[i]
            == list[i] by {}
        assert(list[list.len() - 1] == list.last());
        if first_error(first) is Some {
            let e = first_error(first)->0;
            let k = choose|k: int|
                #![trigger first[k]]
                0 <= k < first.len() && syntax_error(first[k]) == Some(e) && forall|i: int|
                    0 <= i < k ==> syntax_error(#[trigger] first[i]) is None;
            assert(list[k] == first[k]);
            assert forall|i: int| 0 <= i < k implies syntax_error(#[trigger] list[i]) is None by {
                assert(list[i] == first[i]);
            }
        } else {
            assert forall|i: int| 0 <= i < first.len() implies syntax_error(
                #[trigger] list[i],
            ) is None by {
                assert(list[i] == first[i]);
            }
        }
    }
}

/// What is left out is neither added nor looked through, whatever it is. A file is added as long
/// as it does not lie deeper than the limit; a directory is looked through as long as what lies in
/// it does not; and nothing else is done.
pub proof fn files_are_added_and_directories_looked_through(
    entry: EntryView,
    depth: int,
    limit: int,
    roots: Seq<Seq<char>>,
    patterns: Seq<Seq<char>>,
)
    ensures
        ({
            let what = visit_of(entry, depth, limit, roots, patterns);
            let out = ignored(entry.path, roots, patterns);
            &&& what == Visit::Ignore <==> out
            &&& what == Visit::Descend <==> !out && entry.is_dir && depth + 1 <= limit
            &&& what == Visit::Insert <==> !out && !entry.is_dir && entry.is_file && depth <= limit
        }),
{
}

/// The entries of a directory are looked at one after the other, each for itself.
pub proof fn entries_are_looked_at_in_order(
    a: Seq<EntryView>,
    b: Seq<EntryView>,
    entry: EntryView,
    what: Visit,
    depth: int,
    limit: int,
    roots: Seq<Seq<char>>,
    patterns: Seq<Seq<char>>,
)
    ensures
        to_visit(a + b, what, depth, limit, roots, patterns) == to_visit(
            a,
            what,
            depth,
            limit,
            roots,
            patterns,
        ) + to_visit(b, what, depth, limit, roots, patterns),
        to_visit(seq![entry], what, depth, limit, roots, patterns) == (if visit_of(
            entry,
            depth,
            limit,
            roots,
            patterns,
        ) == what {
            seq![entry.path]
        } else {
            seq![]
        }),
    decreases b.len(),
{
    let none = to_visit(seq![], what, depth, limit, roots, patterns);
    assert(none =~= seq![]);
    assert(seq![entry].drop_last() =~= seq![]);
    assert(none.push(entry.path) =~= seq![entry.path]);
    let x = to_visit(a, what, depth, limit, roots, patterns);
    if b.len() == 0 {
        assert(a + b =~= a);
        assert(x + to_visit(b, what, depth, limit, roots, patterns) =~= x);
    } else {
        entries_are_looked_at_in_order(
            a,
            b.drop_last(),
            entry,
            what,
            depth,
            limit,
            roots,
            patterns,
        );
        assert((a + b).drop_last() =~= a + b.drop_last());
        assert((a + b).last() == b.last());
        assert(to_visit(a + b, what, depth, limit, roots, patterns) =~= x + to_visit(
            b,
            what,
            depth,
            limit,
            roots,
            patterns,
        ));
    }
}

proof fn lemma_below_any(a: Seq<char>, core: Seq<char>, b: Seq<char>, middle: Seq<char>)
    requires
        core.len() > 0,
        wild(core + seq!['/', '*', '*'], middle + seq!['/'] + b),
    ensures
        wild(below_any_depth(core), a + seq!['/'] + middle + seq!['/'] + b),
{
    let deep = core + seq!['/', '*', '*'];
    let path = a + seq!['/'] + middle + seq!['/'] + b;
    let k = a.len() as int;
    assert(below_any_depth(core) =~= at_any_depth(deep));
    two_stars_are_any_depth(deep, path);
    assert(path[k] == '/');
    assert(path.skip(k + 1) =~= middle + seq!['/'] + b);
    assert(wild(deep, path.skip(k + 1)));
}

proof fn lemma_rest(b: Seq<char>)
    ensures
        wild(seq!['/', '*', '*'], seq!['/'] + b),
{
    let t = seq!['/'] + b;
    lemma_literal_front(seq!['/'], seq!['*', '*'], t);
    assert(seq!['/'] + seq!['*', '*'] =~= seq!['/', '*', '*']);
    assert(t.take(1) =~= seq!['/']);
    two_stars_at_the_end_are_anything(t.skip(1));
}

proof fn lemma_below_name(
    a: Seq<char>,
    name: Seq<char>,
    b: Seq<char>,
    roots: Seq<Seq<char>>,
    i: int,
)
    requires
        name.len() > 0,
        !name.contains('*'),
        !name.contains('?'),
        !name.contains('['),
        0 <= i < default_ignore().len(),
        default_ignore()[i] == below_any_depth(name),
    ensures
        ignored(a + seq!['/'] + name + seq!['/'] + b, roots, default_ignore()),
{
    let t = name + seq!['/'] + b;
    let path = a + seq!['/'] + name + seq!['/'] + b;
    lemma_rest(b);
    lemma_literal_front(name, seq!['/', '*', '*'], t);
    assert(t.take(name.len() as int) =~= name);
    assert(t.skip(name.len() as int) =~= seq!['/'] + b);
    lemma_below_any(a, name, b, name);
    let p = below_any_depth(name);
    assert(!p.contains('[')) by {
        if p.contains('[') {
            let j = choose|j: int| 0 <= j < p.len() && p[j] == '[';
            assert(name[j - 3] == '[');
        }
    }
    assert(accepts(default_ignore()[i], path));
}

/// The names of the directories that are left out by default, with whatever lies below them.
pub open spec fn left_out_names() -> Seq<Seq<char>> {
    seq![
        "node_modules"@,
        "bower_components"@,
        ".venv"@,
        "venv"@,
        "__pycache__"@,
        ".mypy_cache"@,
        ".pytest_cache"@,
        ".tox"@,
        ".eggs"@,
        "target"@,
        ".cargo"@,
        "bin"@,
        "pkg"@,
        "build"@,
        "out"@,
        ".gradle"@,
        "CMakeFiles"@,
        ".env"@,
        ".direnv"@,
        ".cache"@,
        ".local"@,
        ".uv"@,
        ".yarn"@,
        ".pnpm-store"@,
        ".next"@,
        "dist"@,
        "coverage"@,
    ]
}

/// Whatever lies below a directory of such a name is left out by default, wherever that lies.
pub proof fn built_and_fetched_files_are_left_out(
    a: Seq<char>,
    k: int,
    b: Seq<char>,
    roots: Seq<Seq<char>>,
)
    requires
        0 <= k < left_out_names().len(),
    ensures
        ignored(
            a + seq!['/'] + left_out_names()[k] + seq!['/'] + b,
            roots,
            default_ignore(),
        ),
        default_ignore().len() == 31,
{
    if k == 0 {
        reveal_strlit("node_modules");
        reveal_strlit("**/node_modules/**");
        assert("**/node_modules/**"@ =~= below_any_depth("node_modules"@));
        lemma_below_name(a, "node_modules"@, b, roots, 2);
    }
    if k == 1 {
        reveal_strlit("bower_components");
        reveal_strlit("**/bower_components/**");
        assert("**/bower_components/**"@ =~= below_any_depth("bower_components"@));
        lemma_below_name(a, "bower_components"@, b, roots, 3);
    }
    if k == 2 {
        reveal_strlit(".venv");
        reveal_strlit("**/.venv/**");
        assert("**/.venv/**"@ =~= below_any_depth(".venv"@));
        lemma_below_name(a, ".venv"@, b, roots, 4);
    }
    if k == 3 {
        reveal_strlit("venv");
        reveal_strlit("**/venv/**");
        assert("**/venv/**"@ =~= below_any_depth("venv"@));
        lemma_below_name(a, "venv"@, b, roots, 5);
    }
    if k == 4 {
        reveal_strlit("__pycache__");
        reveal_strlit("**/__pycache__/**");
        assert("**/__pycache__/**"@ =~= below_any_depth("__pycache__"@));
        lemma_below_name(a, "__pycache__"@, b, roots, 6);
    }
    if k == 5 {
        reveal_strlit(".mypy_cache");
        reveal_strlit("**/.mypy_cache/**");
        assert("**/.mypy_cache/**"@ =~= below_any_depth(".mypy_cache"@));
        lemma_below_name(a, ".mypy_cache"@, b, roots, 7);
    }
    if k == 6 {
        reveal_strlit(".pytest_cache");
        reveal_strlit("**/.pytest_cache/**");
        assert("**/.pytest_cache/**"@ =~= below_any_depth(".pytest_cache"@));
        lemma_below_name(a, ".pytest_cache"@, b, roots, 8);
    }
    if k == 7 {
        reveal_strlit(".tox");
        reveal_strlit("**/.tox/**");
        assert("**/.tox/**"@ =~= below_any_depth(".tox"@));
        lemma_below_name(a, ".tox"@, b, roots, 9);
    }
    if k == 8 {
        reveal_strlit(".eggs");
        reveal_strlit("**/.eggs/**");
        assert("**/.eggs/**"@ =~= below_any_depth(".eggs"@));
        lemma_below_name(a, ".eggs"@, b, roots, 10);
    }
    if k == 9 {
        reveal_strlit("target");
        reveal_strlit("**/target/**");
        assert("**/target/**"@ =~= below_any_depth("target"@));
        lemma_below_name(a, "target"@, b, roots, 12);
    }
    if k == 10 {
        reveal_strlit(".cargo");
        reveal_strlit("**/.cargo/**");
        assert("**/.cargo/**"@ =~= below_any_depth(".cargo"@));
        lemma_below_name(a, ".cargo"@, b, roots, 13);
    }
    if k == 11 {
        reveal_strlit("bin");
        reveal_strlit("**/bin/**");
        assert("**/bin/**"@ =~= below_any_depth("bin"@));
        lemma_below_name(a, "bin"@, b, roots, 14);
    }
    if k == 12 {
        reveal_strlit("pkg");
        reveal_strlit("**/pkg/**");
        assert("**/pkg/**"@ =~= below_any_depth("pkg"@));
        lemma_below_name(a, "pkg"@, b, roots, 15);
    }
    if k == 13 {
        reveal_strlit("build");
        reveal_strlit("**/build/**");
        assert("**/build/**"@ =~= below_any_depth("build"@));
        lemma_below_name(a, "build"@, b, roots, 16);
    }
    if k == 14 {
        reveal_strlit("out");
        reveal_strlit("**/out/**");
        assert("**/out/**"@ =~= below_any_depth("out"@));
        lemma_below_name(a, "out"@, b, roots, 17);
    }
    if k == 15 {
        reveal_strlit(".gradle");
        reveal_strlit("**/.gradle/**");
        assert("**/.gradle/**"@ =~= below_any_depth(".gradle"@));
        lemma_below_name(a, ".gradle"@, b, roots, 18);
    }
    if k == 16 {
        reveal_strlit("CMakeFiles");
        reveal_strlit("**/CMakeFiles/**");
        assert("**/CMakeFiles/**"@ =~= below_any_depth("CMakeFiles"@));
        lemma_below_name(a, "CMakeFiles"@, b, roots, 19);
    }
    if k == 17 {
        reveal_strlit(".env");
        reveal_strlit("**/.env/**");
        assert("**/.env/**"@ =~= below_any_depth(".env"@));
        lemma_below_name(a, ".env"@, b, roots, 21);
    }
    if k == 18 {
        reveal_strlit(".direnv");
        reveal_strlit("**/.direnv/**");
        assert("**/.direnv/**"@ =~= below_any_depth(".direnv"@));
        lemma_below_name(a, ".direnv"@, b, roots, 22);
    }
    if k == 19 {
        reveal_strlit(".cache");
        reveal_strlit("**/.cache/**");
        assert("**/.cache/**"@ =~= below_any_depth(".cache"@));
        lemma_below_name(a, ".cache"@, b, roots, 23);
    }
    if k == 20 {
        reveal_strlit(".local");
        reveal_strlit("**/.local/**");
        assert("**/.local/**"@ =~= below_any_depth(".local"@));
        lemma_below_name(a, ".local"@, b, roots, 24);
    }
    if k == 21 {
        reveal_strlit(".uv");
        reveal_strlit("**/.uv/**");
        assert("**/.uv/**"@ =~= below_any_depth(".uv"@));
        lemma_below_name(a, ".uv"@, b, roots, 25);
    }
    if k == 22 {
        reveal_strlit(".yarn");
        reveal_strlit("**/.yarn/**");
        assert("**/.yarn/**"@ =~= below_any_depth(".yarn"@));
        lemma_below_name(a, ".yarn"@, b, roots, 26);
    }
    if k == 23 {
        reveal_strlit(".pnpm-store");
        reveal_strlit("**/.pnpm-store/**");
        assert("**/.pnpm-store/**"@ =~= below_any_depth(".pnpm-store"@));
        lemma_below_name(a, ".pnpm-store"@, b, roots, 27);
    }
    if k == 24 {
        reveal_strlit(".next");
        reveal_strlit("**/.next/**");
        assert("**/.next/**"@ =~= below_any_depth(".next"@));
        lemma_below_name(a, ".next"@, b, roots, 28);
    }
    if k == 25 {
        reveal_strlit("dist");
        reveal_strlit("**/dist/**");
        assert("**/dist/**"@ =~= below_any_depth("dist"@));
        lemma_below_name(a, "dist"@, b, roots, 29);
    }
    if k == 26 {
        reveal_strlit("coverage");
        reveal_strlit("**/coverage/**");
        assert("**/coverage/**"@ =~= below_any_depth("coverage"@));
        lemma_below_name(a, "coverage"@, b, roots, 30);
    }
}

/// Whatever lies below a directory that ends in `.egg-info`, or that starts with `cmake-build-`,
/// is left out by default, wherever that lies.
pub proof fn numbered_builds_are_left_out(
    a: Seq<char>,
    x: Seq<char>,
    b: Seq<char>,
    roots: Seq<Seq<char>>,
)
    ensures
        ignored(a + seq!['/'] + (x + ".egg-info"@) + seq!['/'] + b, roots, default_ignore()),
        ignored(a + seq!['/'] + ("cmake-build-"@ + x) + seq!['/'] + b, roots, default_ignore()),
{
    reveal_strlit(".egg-info");
    reveal_strlit("**/*.egg-info/**");
    reveal_strlit("cmake-build-");
    reveal_strlit("**/cmake-build-*/**");
    let tail = seq!['/', '*', '*'];
    lemma_rest(b);
    assert(default_ignore()[11] == "**/*.egg-info/**"@);
    assert(default_ignore()[20] == "**/cmake-build-*/**"@);
    assert(accepts(
        default_ignore()[11],
        a + seq!['/'] + (x + ".egg-info"@) + seq!['/'] + b,
    )) by {
        let end = ".egg-info"@;
        let core = seq!['*'] + end;
        let middle = x + end;
        let t = middle + seq!['/'] + b;
        assert("**/*.egg-info/**"@ =~= below_any_depth(core));
        star_is_any_text(end + tail, t);
        assert(core + tail =~= seq!['*'] + (end + tail));
        let u = t.skip(x.len() as int);
        assert(u =~= end + seq!['/'] + b);
        lemma_literal_front(end, tail, u);
        assert(u.take(end.len() as int) =~= end);
        assert(u.skip(end.len() as int) =~= seq!['/'] + b);
        assert(wild(end + tail, t.skip(x.len() as int)));
        lemma_below_any(a, core, b, middle);
    }
    assert(accepts(
        default_ignore()[20],
        a + seq!['/'] + ("cmake-build-"@ + x) + seq!['/'] + b,
    )) by {
        let front = "cmake-build-"@;
        let core = front + seq!['*'];
        let middle = front + x;
        let t = middle + seq!['/'] + b;
        assert("**/cmake-build-*/**"@ =~= below_any_depth(core));
        lemma_literal_front(front, seq!['*'] + tail, t);
        assert(core + tail =~= front + (seq!['*'] + tail));
        assert(t.take(front.len() as int) =~= front);
        let u = t.skip(front.len() as int);
        assert(u =~= x + seq!['/'] + b);
        star_is_any_text(tail, u);
        assert(u.skip(x.len() as int) =~= seq!['/'] + b);
        assert(wild(tail, u.skip(x.len() as int)));
        lemma_below_any(a, core, b, middle);
    }
}

} // verus!
