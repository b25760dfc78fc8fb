//! Which paths are left out of the index.

use crate::paths::{relative_to, strip_prefix};
use crate::patterns::{accepts, syntax_error, Glob, PatternError};
use crate::text::{from_chars, texts, to_chars};
use vstd::prelude::*;

verus! {

/// The texts that patterns were made from.
pub open spec fn sources(patterns: Seq<Glob>) -> Seq<Seq<char>> {
    patterns.map_values(|p: Glob| p@)
}

/// One of the patterns accepts a text.
pub open spec fn any_accepts(patterns: Seq<Seq<char>>, text: Seq<char>) -> bool {
    exists|i: int| 0 <= i < patterns.len() && accepts(#[trigger] patterns[i], text)
}

/// A pattern accepts a path, or what is left of it behind a location that it lies under.
pub open spec fn ignored(
    path: Seq<char>,
    roots: Seq<Seq<char>>,
    patterns: Seq<Seq<char>>,
) -> bool {
    ||| any_accepts(patterns, path)
    ||| exists|i: int|
        0 <= i < roots.len() && (relative_to(path, #[trigger] roots[i]) matches Some(rest)
            && any_accepts(patterns, rest))
}

/// Tells whether one of the patterns accepts a text.
fn any_matches(patterns: &Vec<Glob>, text: &str) -> (r: bool)
    ensures
        r == any_accepts(sources(patterns@), text@),
{
    let mut i: usize = 0;
    while i < patterns.len()
        invariant
            i <= patterns@.len(),
            forall|k: int| #![trigger sources(patterns@)[k]]
                0 <= k < i ==> !accepts(sources(patterns@)[k], text@),
        decreases patterns@.len() - i,
    {
        assert(sources(patterns@)[i as int] == patterns@[i as int]@);
        if patterns[i].matches(text) {
            return true;
        }
        i += 1;
    }
    false
}

/// Tells whether a path is left out.
pub fn is_ignored(path: &str, include_roots: &Vec<String>, ignore_patterns: &Vec<Glob>) -> (r: bool)
    ensures
        r == ignored(path@, texts(include_roots@), sources(ignore_patterns@)),
{
    if any_matches(ignore_patterns, path) {
        return true;
    }
    let chars = to_chars(path);
    let mut i: usize = 0;
    while i < include_roots.len()
        invariant
            i <= include_roots@.len(),
            chars@ == path@,
            forall|k: int| #![trigger texts(include_roots@)[k]]
                0 <= k < i ==> !(relative_to(path@, texts(include_roots@)[k]) matches Some(rest)
                    && any_accepts(sources(ignore_patterns@), rest)),
        decreases include_roots@.len() - i,
    {
        assert(texts(include_roots@)[i as int] == include_roots@[i as int]@);
        if let Some(rest) = strip_prefix(&chars, &to_chars(include_roots[i].as_str())) {
            if any_matches(ignore_patterns, from_chars(&rest).as_str()) {
                return true;
            }
        }
        i += 1;
    }
    false
}

/// The first error among the texts of patterns.
pub open spec fn first_error(texts: Seq<Seq<char>>) -> Option<(usize, Seq<char>)>
    decreases texts.len(),
{
    if texts.len() == 0 {
        None
    } else if first_error(texts.drop_last()) is Some {
        first_error(texts.drop_last())
    } else {
        syntax_error(texts.last())
    }
}

proof fn lemma_first_error(list: Seq<Seq<char>>, i: int)
    requires
        0 <= i <= list.len(),
        first_error(list.take(i)) is Some,
    ensures
        first_error(list) == first_error(list.take(i)),
    decreases list.len() - i,
{
    if i < list.len() {
        assert(list.take(i + 1).drop_last() =~= list.take(i));
        lemma_first_error(list, i + 1);
    } else {
        assert(list.take(i) =~= list);
    }
}

/// Compiles patterns, up to the first that is none.
pub fn compile_patterns(ignore: &Vec<String>) -> (r: Result<Vec<Glob>, PatternError>)
    ensures
        match r {
            Ok(patterns) => sources(patterns@) == texts(ignore@) && first_error(
                texts(ignore@),
            ) is None,
            Err(e) => first_error(texts(ignore@)) == Some((e.pos, e.msg@)),
        },
{
    let mut patterns: Vec<Glob> = Vec::new();
    let mut i: usize = 0;
    assert(sources(patterns@) =~= texts(ignore@).take(0));
    while i < ignore.len()
        invariant
            i <= ignore@.len(),
            sources(patterns@) == texts(ignore@).take(i as int),
            first_error(texts(ignore@).take(i as int)) is None,
        decreases ignore@.len() - i,
    {
        let ghost before = sources(patterns@);
        let ghost all = texts(ignore@);
        assert(all[i as int] == ignore@[i as int]@);
        assert(all.take(i + 1).drop_last() =~= all.take(i as int));
        match Glob::new(ignore[i].as_str()) {
            Ok(pattern) => {
                patterns.push(pattern);
                assert(sources(patterns@) =~= before.push(pattern@));
                assert(sources(patterns@) =~= all.take(i + 1));
            },
            Err(e) => {
                proof {
                    lemma_first_error(all, i + 1);
                }
                return Err(e);
            },
        }
        i += 1;
    }
    assert(texts(ignore@).take(i as int) =~= texts(ignore@));
    Ok(patterns)
}

} // verus!
