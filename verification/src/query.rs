//! Search queries: what a query text asks for, which paths answer it, and how well.

use crate::paths::{file_name, file_name_of};
use crate::patterns::{accepts, at_any_depth, below_any_depth, syntax_error, Glob};
use crate::text::{
    add_text, contains, ends_with, from_chars, has_char, lemma_words, lower, occurs, replace,
    replaced, same, split_whitespace, starts_with, strip, strip_front, subvec, texts, to_chars,
    to_lower, trim, trim_front, words, CharClass,
};
use vstd::prelude::*;
use vstd::utf8::encode_utf8;

verus! {

/// What a query asks for.
#[derive(Debug, Clone, PartialEq, Eq)]
pub struct QueryPlan {
    /// Texts that must stand in the path.
    pub include_terms: Vec<String>,
    /// Texts that must not stand in the path.
    pub exclude_terms: Vec<String>,
    /// Endings of which the path must have one.
    pub ext_filters: Vec<String>,
    /// Patterns and directories that must all hold of the path.
    pub path_globs: Vec<String>,
}

/// A plan's four lists as texts.
#[verifier::ext_equal]
pub struct PlanView {
    pub include_terms: Seq<Seq<char>>,
    pub exclude_terms: Seq<Seq<char>>,
    pub ext_filters: Seq<Seq<char>>,
    pub path_globs: Seq<Seq<char>>,
}

impl View for QueryPlan {
    type V = PlanView;

    open spec fn view(&self) -> PlanView {
        PlanView {
            include_terms: texts(self.include_terms@),
            exclude_terms: texts(self.exclude_terms@),
            ext_filters: texts(self.ext_filters@),
            path_globs: texts(self.path_globs@),
        }
    }
}

/// The plan that asks for nothing.
pub open spec fn empty_plan() -> PlanView {
    PlanView {
        include_terms: seq![],
        exclude_terms: seq![],
        ext_filters: seq![],
        path_globs: seq![],
    }
}

/// A token holds one of `*`, `?` and `[`.
pub open spec fn has_meta(token: Seq<char>) -> bool {
    token.contains('*') || token.contains('?') || token.contains('[')
}

/// A token that is a file ending as it stands: a dot, more behind it, and no `/`.
pub open spec fn is_ending(token: Seq<char>) -> bool {
    token.len() > 1 && token[0] == '.' && !token.contains('/')
}

/// A token that speaks of the path as a whole.
pub open spec fn is_scope(token: Seq<char>) -> bool {
    token.contains('/') || has_meta(token)
}

/// An ending with exactly one dot in front.
pub open spec fn dotted(ext: Seq<char>) -> Seq<char> {
    seq!['.'] + strip_front(ext, CharClass::Only('.'))
}

/// The four characters in front of a named ending.
pub open spec fn ext_mark() -> Seq<char> {
    seq!['e', 'x', 't', ':']
}

/// A plan with one more token.
///
/// `!` in front of a token excludes it, `ext:` in front names an ending, a token that is an
/// ending filters by it, one that speaks of the path as a whole scopes the search, and any
/// other token must stand in the path. A lone `!` or `ext:` asks for nothing.
pub open spec fn plus_token(plan: PlanView, token: Seq<char>) -> PlanView {
    if token.len() > 0 && token[0] == '!' {
        if token.len() > 1 {
            PlanView { exclude_terms: plan.exclude_terms.push(lower(token.skip(1))), ..plan }
        } else {
            plan
        }
    } else if ext_mark().is_prefix_of(token) {
        if token.len() > 4 {
            PlanView { ext_filters: plan.ext_filters.push(dotted(lower(token.skip(4)))), ..plan }
        } else {
            plan
        }
    } else if is_ending(token) {
        PlanView { ext_filters: plan.ext_filters.push(lower(token)), ..plan }
    } else if is_scope(token) {
        PlanView { path_globs: plan.path_globs.push(lower(token)), ..plan }
    } else {
        PlanView { include_terms: plan.include_terms.push(lower(token)), ..plan }
    }
}

/// The plan of a list of tokens.
pub open spec fn plan_of(tokens: Seq<Seq<char>>) -> PlanView
    decreases tokens.len(),
{
    if tokens.len() == 0 {
        empty_plan()
    } else {
        plus_token(plan_of(tokens.drop_last()), tokens.last())
    }
}

/// Every text of a plan fits its list: none is empty, an ending starts with a dot, and a scope
/// holds a `/` or a wildcard.
pub open spec fn lists_fit(plan: PlanView) -> bool {
    &&& forall|i: int| #![trigger plan.include_terms[i]]
        0 <= i < plan.include_terms.len() ==> plan.include_terms[i].len() > 0
    &&& forall|i: int| #![trigger plan.exclude_terms[i]]
        0 <= i < plan.exclude_terms.len() ==> plan.exclude_terms[i].len() > 0
    &&& forall|i: int| #![trigger plan.ext_filters[i]]
        0 <= i < plan.ext_filters.len() ==> plan.ext_filters[i].len() > 0
            && plan.ext_filters[i][0] == '.'
    &&& forall|i: int| #![trigger plan.path_globs[i]]
        0 <= i < plan.path_globs.len() ==> is_scope(plan.path_globs[i])
}

/// A path in lower case, with `/` for every backslash.
pub open spec fn normalized(path: Seq<char>) -> Seq<char> {
    lower(replaced(path, '\\', '/'))
}

/// The file name of a path in lower case; empty if it has none.
pub open spec fn basename(path: Seq<char>) -> Seq<char> {
    match file_name_of(path) {
        Some(name) => lower(name),
        None => lower(seq![]),
    }
}

/// A text is a pattern and accepts another text as a whole.
pub open spec fn glob_holds(pattern: Seq<char>, text: Seq<char>) -> bool {
    syntax_error(pattern) is None && accepts(pattern, text)
}

/// A filter's pattern for file names: anything may come before it.
pub open spec fn ending_pattern(filter: Seq<char>) -> Seq<char> {
    if filter.len() > 0 && filter[0] == '*' {
        filter
    } else {
        seq!['*'] + filter
    }
}

/// An ending holds of a path: as a pattern on its file name, or as its last characters.
pub open spec fn ending_holds(filter: Seq<char>, path: Seq<char>, name: Seq<char>) -> bool {
    if has_meta(filter) {
        glob_holds(ending_pattern(filter), name)
    } else {
        filter.is_suffix_of(path)
    }
}

/// A scope as it is compared: trimmed, in lower case, with `/` for every backslash.
pub open spec fn scope_text(scope: Seq<char>) -> Seq<char> {
    lower(replaced(strip(scope, CharClass::WhiteSpace), '\\', '/'))
}

/// A scope without the `/` around it.
pub open spec fn scope_core(scope: Seq<char>) -> Seq<char> {
    strip(scope_text(scope), CharClass::Only('/'))
}

/// A scope holds of a path: as a pattern, at any depth; or as a part of the path's tree.
pub open spec fn scope_holds(scope: Seq<char>, path: Seq<char>) -> bool {
    let core = scope_core(scope);
    if core.len() == 0 {
        true
    } else if has_meta(core) {
        ||| glob_holds(scope_text(scope), path)
        ||| glob_holds(core, path)
        ||| glob_holds(at_any_depth(core), path)
    } else {
        ||| glob_holds(below_any_depth(core), path)
        ||| glob_holds(at_any_depth(core), path)
    }
}

/// One of the endings holds of a path, if there are any.
pub open spec fn some_ending(endings: Seq<Seq<char>>, path: Seq<char>, name: Seq<char>) -> bool {
    endings.len() > 0 ==> exists|i: int|
        0 <= i < endings.len() && ending_holds(#[trigger] endings[i], path, name)
}

/// Every scope holds of a path.
pub open spec fn all_scopes(scopes: Seq<Seq<char>>, path: Seq<char>) -> bool {
    forall|i: int| 0 <= i < scopes.len() ==> scope_holds(#[trigger] scopes[i], path)
}

/// Every term stands in a path.
pub open spec fn all_terms(terms: Seq<Seq<char>>, path: Seq<char>) -> bool {
    forall|i: int| 0 <= i < terms.len() ==> occurs(path, #[trigger] terms[i])
}

/// No term stands in a path or in its file name.
pub open spec fn no_term(terms: Seq<Seq<char>>, path: Seq<char>, name: Seq<char>) -> bool {
    forall|i: int|
        0 <= i < terms.len() ==> !occurs(path, #[trigger] terms[i]) && !occurs(name, terms[i])
}

/// A path answers a plan.
pub open spec fn answers(path: Seq<char>, plan: PlanView) -> bool {
    &&& some_ending(plan.ext_filters, normalized(path), basename(path))
    &&& all_scopes(plan.path_globs, normalized(path))
    &&& all_terms(plan.include_terms, normalized(path))
    &&& no_term(plan.exclude_terms, normalized(path), basename(path))
}

/// What one term adds to the score of a path.
pub open spec fn term_score(term: Seq<char>, path: Seq<char>, name: Seq<char>) -> int {
    if name == term {
        120
    } else if term.is_prefix_of(name) {
        80
    } else if occurs(name, term) {
        50
    } else if occurs(path, term) {
        20
    } else {
        0
    }
}

/// What a list of terms adds to the score of a path.
pub open spec fn terms_score(terms: Seq<Seq<char>>, path: Seq<char>, name: Seq<char>) -> int
    decreases terms.len(),
{
    if terms.len() == 0 {
        0
    } else {
        terms_score(terms.drop_last(), path, name) + term_score(terms.last(), path, name)
    }
}

/// The score of a path: points for every term, ending and scope, less one for every byte.
pub open spec fn score_of(path: Seq<char>, plan: PlanView) -> int {
    terms_score(plan.include_terms, normalized(path), basename(path)) + 20 * plan.ext_filters.len()
        + 15 * plan.path_globs.len() - encode_utf8(normalized(path)).len()
}

impl Default for QueryPlan {
    fn default() -> (r: Self)
        ensures
            r@ == empty_plan(),
    {
        let r = QueryPlan {
            include_terms: Vec::new(),
            exclude_terms: Vec::new(),
            ext_filters: Vec::new(),
            path_globs: Vec::new(),
        };
        assert(r@ =~= empty_plan());
        r
    }
}

impl QueryPlan {
    /// Tells whether the plan asks for nothing.
    pub fn is_empty(&self) -> (r: bool)
        ensures
            r == (self@ == empty_plan()),
    {
        let r = self.include_terms.is_empty() && self.exclude_terms.is_empty()
            && self.ext_filters.is_empty() && self.path_globs.is_empty();
        proof {
            if r {
                assert(self@ =~= empty_plan());
            } else {
                assert(self.include_terms@.len() == self@.include_terms.len());
                assert(self.exclude_terms@.len() == self@.exclude_terms.len());
                assert(self.ext_filters@.len() == self@.ext_filters.len());
                assert(self.path_globs@.len() == self@.path_globs.len());
            }
        }
        r
    }
}

/// Tells whether a token holds one of `*`, `?` and `[`.
pub fn has_glob_meta(token: &Vec<char>) -> (r: bool)
    ensures
        r == has_meta(token@),
{
    has_char(token, '*') || has_char(token, '?') || has_char(token, '[')
}

/// Tells whether a token is a file ending as it stands.
pub fn is_extension_alias(token: &Vec<char>) -> (r: bool)
    ensures
        r == is_ending(token@),
{
    token.len() > 1 && token[0] == '.' && !has_char(token, '/')
}

/// Tells whether a token speaks of the path as a whole.
pub fn is_path_glob(token: &Vec<char>) -> (r: bool)
    ensures
        r == is_scope(token@),
{
    has_char(token, '/') || has_glob_meta(token)
}

/// An ending with exactly one dot in front.
pub fn normalize_extension_suffix(ext: &Vec<char>) -> (r: String)
    ensures
        r@ == dotted(ext@),
{
    let trimmed = trim_front(ext, CharClass::Only('.'));
    let mut r = String::new();
    r.push('.');
    r.append(from_chars(&trimmed).as_str());
    r
}

/// Adds what a token asks for to a plan.
fn add_token(plan: &mut QueryPlan, token: &Vec<char>)
    ensures
        final(plan)@ == plus_token(old(plan)@, token@),
        lists_fit(old(plan)@) && token@.len() > 0 ==> lists_fit(final(plan)@),
{
    if token.len() > 0 && token[0] == '!' {
        if token.len() > 1 {
            let rest = subvec(token, 1, token.len());
            assert(rest@ =~= token@.skip(1));
            add_text(&mut plan.exclude_terms, from_chars(&to_lower(&rest)));
        }
        return;
    }
    let mark: Vec<char> = vec!['e', 'x', 't', ':'];
    assert(mark@ =~= ext_mark());
    if starts_with(token, &mark) {
        if token.len() > 4 {
            let rest = subvec(token, 4, token.len());
            assert(rest@ =~= token@.skip(4));
            add_text(&mut plan.ext_filters, normalize_extension_suffix(&to_lower(&rest)));
            assert(plan@ =~= plus_token(old(plan)@, token@));
            assert(dotted(lower(rest@))[0] == '.');
        }
        return;
    }
    if is_extension_alias(token) {
        add_text(&mut plan.ext_filters, from_chars(&to_lower(token)));
    } else if is_path_glob(token) {
        add_text(&mut plan.path_globs, from_chars(&to_lower(token)));
    } else {
        add_text(&mut plan.include_terms, from_chars(&to_lower(token)));
    }
}

/// Reads a query.
pub fn parse_query(input: &str) -> (r: QueryPlan)
    ensures
        r@ == plan_of(words(input@)),
        lists_fit(r@),
{
    proof {
        lemma_words(input@);
    }
    let tokens = split_whitespace(&to_chars(input));
    let mut plan = QueryPlan::default();
    let mut i: usize = 0;
    let ghost list = words(input@);
    while i < tokens.len()
        invariant
            i <= tokens@.len(),
            list == tokens@.map_values(|w: Vec<char>| w@),
            plan@ == plan_of(list.take(i as int)),
            forall|k: int| #![trigger list[k]] 0 <= k < list.len() ==> list[k].len() > 0,
            lists_fit(plan@),
        decreases tokens@.len() - i,
    {
        assert(list[i as int].len() > 0);
        add_token(&mut plan, &tokens[i]);
        i += 1;
        assert(list.take(i as int).drop_last() =~= list.take(i - 1));
    }
    assert(list.take(i as int) =~= list);
    plan
}

/// A path in lower case, with `/` for every backslash.
pub fn normalize_path(path: &Vec<char>) -> (r: Vec<char>)
    ensures
        r@ == normalized(path@),
{
    to_lower(&replace(path, '\\', '/'))
}

/// The file name of a path in lower case; empty if it has none.
pub fn base_name(path: &Vec<char>) -> (r: Vec<char>)
    ensures
        r@ == basename(path@),
{
    match file_name(path) {
        Some(name) => to_lower(&name),
        None => {
            let nothing: Vec<char> = Vec::new();
            assert(nothing@ =~= seq![]);
            to_lower(&nothing)
        },
    }
}

/// Tells whether a text is a pattern and accepts another text as a whole.
fn glob_accepts(pattern: &str, text: &str) -> (r: bool)
    ensures
        r == glob_holds(pattern@, text@),
{
    match Glob::new(pattern) {
        Ok(glob) => glob.matches(text),
        Err(_) => false,
    }
}

/// Tells whether an ending holds of a path and its file name.
pub fn extension_filter_matches(
    suffix: &Vec<char>,
    normalized_path: &Vec<char>,
    basename: &Vec<char>,
) -> (r: bool)
    ensures
        r == ending_holds(suffix@, normalized_path@, basename@),
{
    if has_glob_meta(suffix) {
        let mut pattern = String::new();
        if suffix[0] != '*' {
            pattern.push('*');
        }
        pattern.append(from_chars(suffix).as_str());
        assert(pattern@ =~= ending_pattern(suffix@));
        glob_accepts(pattern.as_str(), from_chars(basename).as_str())
    } else {
        ends_with(normalized_path, suffix)
    }
}

/// Tells whether a scope holds of a path.
pub fn glob_matches_path(pattern: &Vec<char>, path: &Vec<char>) -> (r: bool)
    ensures
        r == scope_holds(pattern@, path@),
{
    let scope = to_lower(&replace(&trim(pattern, CharClass::WhiteSpace), '\\', '/'));
    let core = trim(&scope, CharClass::Only('/'));
    if core.len() == 0 {
        return true;
    }
    let path = from_chars(path);
    let core_text = from_chars(&core);
    let deep = String::from_str("**/").concat(core_text.as_str());
    proof {
        reveal_strlit("**/");
        reveal_strlit("/**");
    }
    assert(deep@ =~= at_any_depth(core@));
    if has_glob_meta(&core) {
        glob_accepts(from_chars(&scope).as_str(), path.as_str()) || glob_accepts(
            core_text.as_str(),
            path.as_str(),
        ) || glob_accepts(deep.as_str(), path.as_str())
    } else {
        let below = String::from_str("**/").concat(core_text.as_str()).concat("/**");
        assert(below@ =~= below_any_depth(core@));
        glob_accepts(below.as_str(), path.as_str()) || glob_accepts(deep.as_str(), path.as_str())
    }
}

/// Tells whether a path answers a plan.
pub fn path_matches_query(path: &str, plan: &QueryPlan) -> (r: bool)
    ensures
        r == answers(path@, plan@),
{
    let chars = to_chars(path);
    let whole = normalize_path(&chars);
    let name = base_name(&chars);

    if !plan.ext_filters.is_empty() {
        let mut some = false;
        let mut i: usize = 0;
        while i < plan.ext_filters.len() && !some
            invariant
                whole@ == normalized(path@),
                name@ == basename(path@),
                i <= plan.ext_filters@.len(),
                some ==> some_ending(plan@.ext_filters, whole@, name@),
                !some ==> forall|k: int|
                    0 <= k < i ==> !ending_holds(#[trigger] plan@.ext_filters[k], whole@, name@),
            decreases plan.ext_filters@.len() - i,
        {
            let filter = to_chars(plan.ext_filters[i].as_str());
            assert(filter@ == plan@.ext_filters[i as int]);
            some = extension_filter_matches(&filter, &whole, &name);
            i += 1;
        }
        if !some {
            return false;
        }
    }
    let mut i: usize = 0;
    while i < plan.path_globs.len()
        invariant
            whole@ == normalized(path@),
            name@ == basename(path@),
            i <= plan.path_globs@.len(),
            forall|k: int| 0 <= k < i ==> scope_holds(#[trigger] plan@.path_globs[k], whole@),
        decreases plan.path_globs@.len() - i,
    {
        let glob = to_chars(plan.path_globs[i].as_str());
        assert(glob@ == plan@.path_globs[i as int]);
        if !glob_matches_path(&glob, &whole) {
            return false;
        }
        i += 1;
    }
    let mut i: usize = 0;
    while i < plan.include_terms.len()
        invariant
            whole@ == normalized(path@),
            name@ == basename(path@),
            i <= plan.include_terms@.len(),
            forall|k: int| 0 <= k < i ==> occurs(whole@, #[trigger] plan@.include_terms[k]),
        decreases plan.include_terms@.len() - i,
    {
        let term = to_chars(plan.include_terms[i].as_str());
        assert(term@ == plan@.include_terms[i as int]);
        if !contains(&whole, &term) {
            return false;
        }
        i += 1;
    }
    let mut i: usize = 0;
    while i < plan.exclude_terms.len()
        invariant
            whole@ == normalized(path@),
            name@ == basename(path@),
            i <= plan.exclude_terms@.len(),
            forall|k: int|
                0 <= k < i ==> !occurs(whole@, #[trigger] plan@.exclude_terms[k]) && !occurs(
                    name@,
                    plan@.exclude_terms[k],
                ),
        decreases plan.exclude_terms@.len() - i,
    {
        let term = to_chars(plan.exclude_terms[i].as_str());
        assert(term@ == plan@.exclude_terms[i as int]);
        if contains(&whole, &term) || contains(&name, &term) {
            return false;
        }
        i += 1;
    }
    assert(answers(path@, plan@));
    true
}

/// How many bytes a text takes.
pub fn byte_len(s: &Vec<char>) -> (r: usize)
    ensures
        r == encode_utf8(s@).len(),
{
    from_chars(s).as_str().as_bytes().len()
}

/// Scores a path for a plan. Beyond the range of `i32` the score wraps around.
pub fn score_path(path: &str, plan: &QueryPlan) -> (r: i32)
    ensures
        r == score_of(path@, plan@) as i32,
{
    let chars = to_chars(path);
    let whole = normalize_path(&chars);
    let name = base_name(&chars);
    let mut score: i128 = 0;
    let mut i: usize = 0;
    while i < plan.include_terms.len()
        invariant
            i <= plan.include_terms@.len(),
            score == terms_score(plan@.include_terms.take(i as int), whole@, name@),
            0 <= score <= 120 * i,
        decreases plan.include_terms@.len() - i,
    {
        let term = to_chars(plan.include_terms[i].as_str());
        assert(term@ == plan@.include_terms[i as int]);
        let points: i128 = if same(&name, &term) {
            120
        } else if starts_with(&name, &term) {
            80
        } else if contains(&name, &term) {
            50
        } else if contains(&whole, &term) {
            20
        } else {
            0
        };
        score = score + points;
        i += 1;
        assert(plan@.include_terms.take(i as int).drop_last() =~= plan@.include_terms.take(i - 1));
    }
    assert(plan@.include_terms.take(i as int) =~= plan@.include_terms);
    let total: i128 = score + 20 * (plan.ext_filters.len() as i128) + 15 * (plan.path_globs.len()
        as i128) - byte_len(&whole) as i128;
    assert(total == score_of(path@, plan@));
    #[verifier::truncate]
    (total as i32)
}

} // verus!
