//! What holds of the configuration where nothing else is said.

use crate::config::{default_config, default_ignore};
use crate::laws::matching::{
    lemma_deep_patterns, lemma_literal_front, star_is_any_text, two_stars_are_any_depth,
};
use crate::patterns::{
    accepts, at_any_depth, below_any_depth, stars_fit, syntax_error, two_stars, wild,
};
use crate::watcher::ignore::{first_error, ignored};
use vstd::prelude::*;

verus! {

proof fn lemma_below(source: Seq<char>, core: Seq<char>)
    requires
        core.len() > 0,
        !core.contains('['),
        stars_fit(core),
        source == below_any_depth(core),
    ensures
        syntax_error(source) is None,
{
    lemma_deep_patterns(core);
}

proof fn lemma_deep(source: Seq<char>, core: Seq<char>)
    requires
        core.len() > 0,
        !core.contains('['),
        stars_fit(core),
        source == at_any_depth(core),
    ensures
        syntax_error(source) is None,
{
    lemma_deep_patterns(core);
}

proof fn lemma_no_error(list: Seq<Seq<char>>)
    requires
        forall|i: int| 0 <= i < list.len() ==> syntax_error(#[trigger] list[i]) is None,
    ensures
        first_error(list) is None,
    decreases list.len(),
{
    if list.len() > 0 {
        assert forall|i: int| 0 <= i < list.drop_last().len() implies syntax_error(
            #[trigger] list.drop_last()[i],
        ) is None by {
            assert(list.drop_last()[i] == list[i]);
        }
        lemma_no_error(list.drop_last());
        assert(syntax_error(list[list.len() - 1]) is None);
    }
}

/// Every pattern that is left out by default is a pattern: a watch starts with them.
pub proof fn default_patterns_compile(home: Option<Seq<char>>)
    ensures
        first_error(default_config(home).ignore) is None,
{
    let list = default_ignore();
    assert(syntax_error(list[0]) is None) by {
        reveal_strlit("**/.*");
        reveal_strlit(".*");
        assert("**/.*"@ =~= at_any_depth(".*"@));
        lemma_deep("**/.*"@, ".*"@);
    }
    assert(syntax_error(list[1]) is None) by {
        reveal_strlit("**/.git");
        reveal_strlit(".git");
        assert("**/.git"@ =~= at_any_depth(".git"@));
        lemma_deep("**/.git"@, ".git"@);
    }
    assert(syntax_error(list[2]) is None) by {
        reveal_strlit("**/node_modules/**");
        reveal_strlit("node_modules");
        assert("**/node_modules/**"@ =~= below_any_depth("node_modules"@));
        lemma_below("**/node_modules/**"@, "node_modules"@);
    }
    assert(syntax_error(list[3]) is None) by {
        reveal_strlit("**/bower_components/**");
        reveal_strlit("bower_components");
        assert("**/bower_components/**"@ =~= below_any_depth("bower_components"@));
        lemma_below("**/bower_components/**"@, "bower_components"@);
    }
    assert(syntax_error(list[4]) is None) by {
        reveal_strlit("**/.venv/**");
        reveal_strlit(".venv");
        assert("**/.venv/**"@ =~= below_any_depth(".venv"@));
        lemma_below("**/.venv/**"@, ".venv"@);
    }
    assert(syntax_error(list[5]) is None) by {
        reveal_strlit("**/venv/**");
        reveal_strlit("venv");
        assert("**/venv/**"@ =~= below_any_depth("venv"@));
        lemma_below("**/venv/**"@, "venv"@);
    }
    assert(syntax_error(list[6]) is None) by {
        reveal_strlit("**/__pycache__/**");
        reveal_strlit("__pycache__");
        assert("**/__pycache__/**"@ =~= below_any_depth("__pycache__"@));
        lemma_below("**/__pycache__/**"@, "__pycache__"@);
    }
    assert(syntax_error(list[7]) is None) by {
        reveal_strlit("**/.mypy_cache/**");
        reveal_strlit(".mypy_cache");
        assert("**/.mypy_cache/**"@ =~= below_any_depth(".mypy_cache"@));
        lemma_below("**/.mypy_cache/**"@, ".mypy_cache"@);
    }
    assert(syntax_error(list[8]) is None) by {
        reveal_strlit("**/.pytest_cache/**");
        reveal_strlit(".pytest_cache");
        assert("**/.pytest_cache/**"@ =~= below_any_depth(".pytest_cache"@));
        lemma_below("**/.pytest_cache/**"@, ".pytest_cache"@);
    }
    assert(syntax_error(list[9]) is None) by {
        reveal_strlit("**/.tox/**");
        reveal_strlit(".tox");
        assert("**/.tox/**"@ =~= below_any_depth(".tox"@));
        lemma_below("**/.tox/**"@, ".tox"@);
    }
    assert(syntax_error(list[10]) is None) by {
        reveal_strlit("**/.eggs/**");
        reveal_strlit(".eggs");
        assert("**/.eggs/**"@ =~= below_any_depth(".eggs"@));
        lemma_below("**/.eggs/**"@, ".eggs"@);
    }
    assert(syntax_error(list[11]) is None) by {
        reveal_strlit("**/*.egg-info/**");
        reveal_strlit("*.egg-info");
        assert("**/*.egg-info/**"@ =~= below_any_depth("*.egg-info"@));
        lemma_below("**/*.egg-info/**"@, "*.egg-info"@);
    }
    assert(syntax_error(list[12]) is None) by {
        reveal_strlit("**/target/**");
        reveal_strlit("target");
        assert("**/target/**"@ =~= below_any_depth("target"@));
        lemma_below("**/target/**"@, "target"@);
    }
    assert(syntax_error(list[13]) is None) by {
        reveal_strlit("**/.cargo/**");
        reveal_strlit(".cargo");
        assert("**/.cargo/**"@ =~= below_any_depth(".cargo"@));
        lemma_below("**/.cargo/**"@, ".cargo"@);
    }
    assert(syntax_error(list[14]) is None) by {
        reveal_strlit("**/bin/**");
        reveal_strlit("bin");
        assert("**/bin/**"@ =~= below_any_depth("bin"@));
        lemma_below("**/bin/**"@, "bin"@);
    }
    assert(syntax_error(list[15]) is None) by {
        reveal_strlit("**/pkg/**");
        reveal_strlit("pkg");
        assert("**/pkg/**"@ =~= below_any_depth("pkg"@));
        lemma_below("**/pkg/**"@, "pkg"@);
    }
    assert(syntax_error(list[16]) is None) by {
        reveal_strlit("**/build/**");
        reveal_strlit("build");
        assert("**/build/**"@ =~= below_any_depth("build"@));
        lemma_below("**/build/**"@, "build"@);
    }
    assert(syntax_error(list[17]) is None) by {
        reveal_strlit("**/out/**");
        reveal_strlit("out");
        assert("**/out/**"@ =~= below_any_depth("out"@));
        lemma_below("**/out/**"@, "out"@);
    }
    assert(syntax_error(list[18]) is None) by {
        reveal_strlit("**/.gradle/**");
        reveal_strlit(".gradle");
        assert("**/.gradle/**"@ =~= below_any_depth(".gradle"@));
        lemma_below("**/.gradle/**"@, ".gradle"@);
    }
    assert(syntax_error(list[19]) is None) by {
        reveal_strlit("**/CMakeFiles/**");
        reveal_strlit("CMakeFiles");
        assert("**/CMakeFiles/**"@ =~= below_any_depth("CMakeFiles"@));
        lemma_below("**/CMakeFiles/**"@, "CMakeFiles"@);
    }
    assert(syntax_error(list[20]) is None) by {
        reveal_strlit("**/cmake-build-*/**");
        reveal_strlit("cmake-build-*");
        assert("**/cmake-build-*/**"@ =~= below_any_depth("cmake-build-*"@));
        lemma_below("**/cmake-build-*/**"@, "cmake-build-*"@);
    }
    assert(syntax_error(list[21]) is None) by {
        reveal_strlit("**/.env/**");
        reveal_strlit(".env");
        assert("**/.env/**"@ =~= below_any_depth(".env"@));
        lemma_below("**/.env/**"@, ".env"@);
    }
    assert(syntax_error(list[22]) is None) by {
        reveal_strlit("**/.direnv/**");
        reveal_strlit(".direnv");
        assert("**/.direnv/**"@ =~= below_any_depth(".direnv"@));
        lemma_below("**/.direnv/**"@, ".direnv"@);
    }
    assert(syntax_error(list[23]) is None) by {
        reveal_strlit("**/.cache/**");
        reveal_strlit(".cache");
        assert("**/.cache/**"@ =~= below_any_depth(".cache"@));
        lemma_below("**/.cache/**"@, ".cache"@);
    }
    assert(syntax_error(list[24]) is None) by {
        reveal_strlit("**/.local/**");
        reveal_strlit(".local");
        assert("**/.local/**"@ =~= below_any_depth(".local"@));
        lemma_below("**/.local/**"@, ".local"@);
    }
    assert(syntax_error(list[25]) is None) by {
        reveal_strlit("**/.uv/**");
        reveal_strlit(".uv");
        assert("**/.uv/**"@ =~= below_any_depth(".uv"@));
        lemma_below("**/.uv/**"@, ".uv"@);
    }
    assert(syntax_error(list[26]) is None) by {
        reveal_strlit("**/.yarn/**");
        reveal_strlit(".yarn");
        assert("**/.yarn/**"@ =~= below_any_depth(".yarn"@));
        lemma_below("**/.yarn/**"@, ".yarn"@);
    }
    assert(syntax_error(list[27]) is None) by {
        reveal_strlit("**/.pnpm-store/**");
        reveal_strlit(".pnpm-store");
        assert("**/.pnpm-store/**"@ =~= below_any_depth(".pnpm-store"@));
        lemma_below("**/.pnpm-store/**"@, ".pnpm-store"@);
    }
    assert(syntax_error(list[28]) is None) by {
        reveal_strlit("**/.next/**");
        reveal_strlit(".next");
        assert("**/.next/**"@ =~= below_any_depth(".next"@));
        lemma_below("**/.next/**"@, ".next"@);
    }
    assert(syntax_error(list[29]) is None) by {
        reveal_strlit("**/dist/**");
        reveal_strlit("dist");
        assert("**/dist/**"@ =~= below_any_depth("dist"@));
        lemma_below("**/dist/**"@, "dist"@);
    }
    assert(syntax_error(list[30]) is None) by {
        reveal_strlit("**/coverage/**");
        reveal_strlit("coverage");
        assert("**/coverage/**"@ =~= below_any_depth("coverage"@));
        lemma_below("**/coverage/**"@, "coverage"@);
    }
    lemma_no_error(list);
}

/// Hidden files and directories, and whatever lies below them, are left out by default.
pub proof fn hidden_paths_are_ignored(path: Seq<char>, roots: Seq<Seq<char>>, k: int)
    requires
        0 <= k < path.len() - 1,
        path[k] == '/',
        path[k + 1] == '.',
    ensures
        ignored(path, roots, default_ignore()),
{
    reveal_strlit("**/.*");
    let core = seq!['.', '*'];
    assert("**/.*"@ =~= at_any_depth(core));
    assert(core[0] == '.' && core[1] == '*');
    assert(!core.contains('['));
    assert(stars_fit(core)) by {
        assert forall|i: int| !#[trigger] two_stars(core, i) by {}
    }
    lemma_deep_patterns(core);
    let t = path.skip(k + 1);
    assert(core =~= seq!['.'] + seq!['*']);
    lemma_literal_front(seq!['.'], seq!['*'], t);
    assert(t.take(1) =~= seq!['.']);
    star_is_any_text(seq![], t.skip(1));
    assert(seq!['*'] + seq![] =~= seq!['*']);
    let u = t.skip(1);
    assert(u.skip(u.len() as int) =~= seq![]);
    assert(wild(seq![], u.skip(u.len() as int)));
    assert(wild(core, path.skip(k + 1)));
    two_stars_are_any_depth(core, path);
    assert(default_ignore()[0] == "**/.*"@);
    assert(accepts(default_ignore()[0], path));
}

} // verus!
