//! Searching the index: the statement that fetches candidate paths, and their ranking.

use crate::query::{
    byte_len, empty_plan, has_glob_meta, has_meta, parse_query, plan_of, PlanView, QueryPlan,
};
use crate::text::{
    add_text, from_chars, lower, strip, texts, to_chars, to_lower, trim, words, CharClass,
};
use vstd::prelude::*;
use vstd::utf8::encode_utf8;

verus! {

/// A condition on the path of a row.
pub enum Condition {
    /// The path is like a pattern.
    Like(Seq<char>),
    /// The path is not like a pattern.
    NotLike(Seq<char>),
    /// The path is like one of several patterns.
    LikeAny(Seq<Seq<char>>),
}

/// The parts of a list, with a separator between them.
pub open spec fn joined_by(parts: Seq<Seq<char>>, sep: Seq<char>) -> Seq<char>
    decreases parts.len(),
{
    if parts.len() == 0 {
        seq![]
    } else if parts.len() == 1 {
        parts[0]
    } else {
        joined_by(parts.drop_last(), sep) + sep + parts.last()
    }
}

/// A condition in SQL, with a `?` for every pattern.
pub open spec fn condition_sql(c: Condition) -> Seq<char> {
    match c {
        Condition::Like(_) => "LOWER(path) LIKE ?"@,
        Condition::NotLike(_) => "LOWER(path) NOT LIKE ?"@,
        Condition::LikeAny(patterns) => "("@ + joined_by(
            Seq::new(patterns.len(), |i: int| "LOWER(path) LIKE ?"@),
            " OR "@,
        ) + ")"@,
    }
}

/// The patterns of a condition.
pub open spec fn condition_params(c: Condition) -> Seq<Seq<char>> {
    match c {
        Condition::Like(pattern) => seq![pattern],
        Condition::NotLike(pattern) => seq![pattern],
        Condition::LikeAny(patterns) => patterns,
    }
}

/// The patterns of a list of conditions.
pub open spec fn all_params(list: Seq<Condition>) -> Seq<Seq<char>>
    decreases list.len(),
{
    if list.len() == 0 {
        seq![]
    } else {
        all_params(list.drop_last()) + condition_params(list.last())
    }
}

/// The conditions in SQL.
pub open spec fn all_sql(list: Seq<Condition>) -> Seq<Seq<char>> {
    list.map_values(|c: Condition| condition_sql(c))
}

/// The statement that fetches the paths that meet all conditions.
pub open spec fn statement(list: Seq<Condition>) -> Seq<char> {
    (if list.len() == 0 {
        "SELECT path FROM files"@
    } else {
        "SELECT path FROM files"@ + " WHERE "@ + joined_by(all_sql(list), " AND "@)
    }) + " LIMIT 4000"@
}

/// The pattern of the texts that hold a term.
pub open spec fn holding(term: Seq<char>) -> Seq<char> {
    seq!['%'] + term + seq!['%']
}

/// The pattern of the texts that end in a term.
pub open spec fn ending_in(term: Seq<char>) -> Seq<char> {
    seq!['%'] + term
}

/// A term for every text.
pub open spec fn hold_all(terms: Seq<Seq<char>>) -> Seq<Condition> {
    terms.map_values(|t: Seq<char>| Condition::Like(holding(t)))
}

/// No excluded term.
pub open spec fn hold_none(terms: Seq<Seq<char>>) -> Seq<Condition> {
    terms.map_values(|t: Seq<char>| Condition::NotLike(holding(t)))
}

/// The patterns of the endings that hold no wildcard.
pub open spec fn plain_endings(endings: Seq<Seq<char>>) -> Seq<Seq<char>>
    decreases endings.len(),
{
    if endings.len() == 0 {
        seq![]
    } else if has_meta(endings.last()) {
        plain_endings(endings.drop_last())
    } else {
        plain_endings(endings.drop_last()).push(ending_in(endings.last()))
    }
}

/// The path has one of the endings, unless one of them holds a wildcard: what such an ending
/// asks for is settled when the rows are held against the plan, so that no answer is lost here.
pub open spec fn hold_ending(endings: Seq<Seq<char>>) -> Seq<Condition> {
    if endings.len() > 0 && plain_endings(endings).len() == endings.len() {
        seq![Condition::LikeAny(plain_endings(endings))]
    } else {
        seq![]
    }
}

/// A character that parts the literal pieces of a pattern.
pub open spec fn parts_pieces(c: char) -> bool {
    c == '*' || c == '?' || c == '[' || c == ']'
}

/// The pieces of a pattern between its `*`, `?`, `[` and `]`.
pub open spec fn pieces(s: Seq<char>) -> Seq<Seq<char>>
    decreases s.len(),
{
    if s.len() == 0 {
        seq![seq![]]
    } else {
        let before = pieces(s.drop_last());
        if parts_pieces(s.last()) {
            before.push(seq![])
        } else {
            before.drop_last().push(before.last().push(s.last()))
        }
    }
}

/// A piece as it is looked for: without the `/` around it, in lower case.
pub open spec fn fragment(piece: Seq<char>) -> Seq<char> {
    lower(strip(piece, CharClass::Only('/')))
}

/// The longest fragment of at least two bytes; the last one of several.
pub open spec fn longest_fragment(list: Seq<Seq<char>>) -> Option<Seq<char>>
    decreases list.len(),
{
    if list.len() == 0 {
        None
    } else {
        let best = longest_fragment(list.drop_last());
        let next = fragment(list.last());
        if encode_utf8(next).len() < 2 {
            best
        } else {
            match best {
                Some(b) if encode_utf8(next).len() < encode_utf8(b).len() => best,
                _ => Some(next),
            }
        }
    }
}

/// A condition for every scope that has a literal fragment.
pub open spec fn hold_fragments(scopes: Seq<Seq<char>>) -> Seq<Condition>
    decreases scopes.len(),
{
    if scopes.len() == 0 {
        seq![]
    } else {
        let before = hold_fragments(scopes.drop_last());
        match longest_fragment(pieces(scopes.last())) {
            Some(f) => before.push(Condition::Like(holding(f))),
            None => before,
        }
    }
}

/// The conditions under which a row is fetched for a plan.
///
/// They come from the terms; without terms, from the endings, unless one holds a wildcard; without
/// endings, from the literal fragments of the scopes. Excluded terms count in every case.
pub open spec fn conditions(plan: PlanView) -> Seq<Condition> {
    (if plan.include_terms.len() > 0 {
        hold_all(plan.include_terms)
    } else if plan.ext_filters.len() > 0 {
        hold_ending(plan.ext_filters)
    } else {
        hold_fragments(plan.path_globs)
    }) + hold_none(plan.exclude_terms)
}

/// Writes the parts of a list, with a separator between them.
pub fn join(parts: &Vec<String>, sep: &str) -> (r: String)
    ensures
        r@ == joined_by(texts(parts@), sep@),
{
    let mut r = String::new();
    let mut i: usize = 0;
    let ghost list = texts(parts@);
    while i < parts.len()
        invariant
            i <= parts@.len(),
            list == texts(parts@),
            r@ == joined_by(list.take(i as int), sep@),
        decreases parts@.len() - i,
    {
        if i > 0 {
            r.append(sep);
        }
        r.append(parts[i].as_str());
        i += 1;
        assert(list.take(i as int).drop_last() =~= list.take(i - 1));
        assert(list.take(i as int).last() == parts@[i - 1]@);
        assert(i == 1 ==> r@ =~= parts@[0]@);
    }
    assert(list.take(i as int) =~= list);
    r
}

/// The pattern of the texts that hold a term.
fn like_holding(term: &str) -> (r: String)
    ensures
        r@ == holding(term@),
{
    let mut r = String::new();
    r.push('%');
    r.append(term);
    r.push('%');
    assert(r@ =~= holding(term@));
    r
}

/// Splits a pattern into its pieces.
pub fn split_pieces(s: &Vec<char>) -> (r: Vec<Vec<char>>)
    ensures
        r@.map_values(|w: Vec<char>| w@) == pieces(s@),
{
    let mut done: Vec<Vec<char>> = Vec::new();
    let mut open: Vec<char> = Vec::new();
    let mut i: usize = 0;
    let ghost view = |w: Vec<char>| w@;
    assert(done@.map_values(view).push(open@) =~= seq![seq![]]);
    while i < s.len()
        invariant
            i <= s@.len(),
            view == (|w: Vec<char>| w@),
            pieces(s@.take(i as int)) == done@.map_values(view).push(open@),
        decreases s@.len() - i,
    {
        let c = s[i];
        assert(s@.take(i + 1).drop_last() =~= s@.take(i as int));
        assert(done@.map_values(view).push(open@).drop_last() =~= done@.map_values(view));
        if c == '*' || c == '?' || c == '[' || c == ']' {
            let ghost done0 = done@;
            done.push(open);
            open = Vec::new();
            assert(done@.map_values(view) =~= done0.map_values(view).push(done@.last()@));
            assert(open@ =~= seq![]);
        } else {
            open.push(c);
        }
        i += 1;
    }
    assert(s@.take(i as int) =~= s@);
    let ghost done0 = done@;
    done.push(open);
    assert(done@.map_values(view) =~= done0.map_values(view).push(done@.last()@));
    done
}

/// The longest literal fragment of a pattern, if it has one of at least two bytes.
pub fn longest_glob_literal(glob: &str) -> (r: Option<String>)
    ensures
        match r {
            Some(f) => longest_fragment(pieces(glob@)) == Some(f@),
            None => longest_fragment(pieces(glob@)) is None,
        },
{
    let parts = split_pieces(&to_chars(glob));
    let ghost list = pieces(glob@);
    let mut best: Option<Vec<char>> = None;
    let mut i: usize = 0;
    while i < parts.len()
        invariant
            i <= parts@.len(),
            list == parts@.map_values(|w: Vec<char>| w@),
            match best {
                Some(b) => longest_fragment(list.take(i as int)) == Some(b@),
                None => longest_fragment(list.take(i as int)) is None,
            },
        decreases parts@.len() - i,
    {
        let next = to_lower(&trim(&parts[i], CharClass::Only('/')));
        assert(list.take(i + 1).drop_last() =~= list.take(i as int));
        assert(list.take(i + 1).last() == parts@[i as int]@);
        let size = byte_len(&next);
        if size >= 2 {
            let keep = match &best {
                Some(b) => size < byte_len(b),
                None => false,
            };
            if !keep {
                best = Some(next);
            }
        }
        i += 1;
    }
    assert(list.take(i as int) =~= list);
    match best {
        Some(b) => Some(from_chars(&b)),
        None => None,
    }
}

proof fn lemma_params_push(list: Seq<Condition>, c: Condition)
    ensures
        all_params(list.push(c)) == all_params(list) + condition_params(c),
        all_sql(list.push(c)) == all_sql(list).push(condition_sql(c)),
{
    assert(list.push(c).drop_last() =~= list);
    assert(all_sql(list.push(c)) =~= all_sql(list).push(condition_sql(c)));
}

proof fn lemma_params_add(a: Seq<Condition>, b: Seq<Condition>)
    ensures
        all_params(a + b) == all_params(a) + all_params(b),
        all_sql(a + b) == all_sql(a) + all_sql(b),
    decreases b.len(),
{
    assert(all_sql(a + b) =~= all_sql(a) + all_sql(b));
    if b.len() == 0 {
        assert(a + b =~= a);
        assert(all_params(a) + all_params(b) =~= all_params(a));
    } else {
        lemma_params_add(a, b.drop_last());
        assert((a + b).drop_last() =~= a + b.drop_last());
        assert(all_params(a + b) =~= all_params(a) + all_params(b));
    }
}

/// The condition that the texts of a list are all held, or that none of them is.
pub open spec fn hold(terms: Seq<Seq<char>>, wanted: bool) -> Seq<Condition> {
    if wanted {
        hold_all(terms)
    } else {
        hold_none(terms)
    }
}

/// Adds a condition for every term.
fn add_terms(terms: &Vec<String>, wanted: bool, clauses: &mut Vec<String>, params: &mut Vec<String>)
    ensures
        texts(final(clauses)@) == texts(old(clauses)@) + all_sql(hold(texts(terms@), wanted)),
        texts(final(params)@) == texts(old(params)@) + all_params(hold(texts(terms@), wanted)),
{
    let mut i: usize = 0;
    let ghost list = hold(texts(terms@), wanted);
    assert(texts(clauses@) =~= texts(clauses@) + all_sql(list.take(0)));
    assert(texts(params@) =~= texts(params@) + all_params(list.take(0)));
    while i < terms.len()
        invariant
            i <= terms@.len(),
            list == hold(texts(terms@), wanted),
            texts(clauses@) == texts(old(clauses)@) + all_sql(list.take(i as int)),
            texts(params@) == texts(old(params)@) + all_params(list.take(i as int)),
        decreases terms@.len() - i,
    {
        proof {
            lemma_params_push(list.take(i as int), list[i as int]);
            assert(list.take(i + 1) =~= list.take(i as int).push(list[i as int]));
            assert(texts(terms@)[i as int] == terms@[i as int]@);
        }
        if wanted {
            add_text(clauses, String::from_str("LOWER(path) LIKE ?"));
        } else {
            add_text(clauses, String::from_str("LOWER(path) NOT LIKE ?"));
        }
        add_text(params, like_holding(terms[i].as_str()));
        i += 1;
        assert(texts(clauses@) =~= texts(old(clauses)@) + all_sql(list.take(i as int)));
        assert(texts(params@) =~= texts(old(params)@) + all_params(list.take(i as int)));
    }
    assert(list.take(i as int) =~= list);
}

/// Adds the condition that one of the endings holds, unless one of them holds a wildcard.
fn add_endings(endings: &Vec<String>, clauses: &mut Vec<String>, params: &mut Vec<String>)
    ensures
        texts(final(clauses)@) == texts(old(clauses)@) + all_sql(hold_ending(texts(endings@))),
        texts(final(params)@) == texts(old(params)@) + all_params(hold_ending(texts(endings@))),
{
    let mut choices: Vec<String> = Vec::new();
    let mut patterns: Vec<String> = Vec::new();
    let mut i: usize = 0;
    let ghost list = texts(endings@);
    let ghost choice = "LOWER(path) LIKE ?"@;
    assert(texts(patterns@) =~= plain_endings(list.take(0)));
    while i < endings.len()
        invariant
            i <= endings@.len(),
            list == texts(endings@),
            choice == "LOWER(path) LIKE ?"@,
            texts(choices@) == Seq::new(choices@.len(), |k: int| choice),
            choices@.len() == plain_endings(list.take(i as int)).len(),
            texts(patterns@) == plain_endings(list.take(i as int)),
        decreases endings@.len() - i,
    {
        let ending = endings[i].as_str();
        assert(list.take(i + 1).drop_last() =~= list.take(i as int));
        assert(list.take(i + 1).last() == ending@);
        if !has_glob_meta(&to_chars(ending)) {
            let mut pattern = String::new();
            pattern.push('%');
            pattern.append(ending);
            assert(pattern@ =~= ending_in(ending@));
            add_text(&mut choices, String::from_str("LOWER(path) LIKE ?"));
            assert(texts(choices@).len() == choices@.len());
            assert(texts(choices@) =~= Seq::new(choices@.len(), |k: int| choice));
            add_text(&mut patterns, pattern);
        }
        i += 1;
    }
    assert(list.take(i as int) =~= list);
    let ghost one = Condition::LikeAny(plain_endings(list));
    proof {
        lemma_params_push(seq![], one);
        assert(seq![].push(one) =~= seq![one]);
        assert(all_sql(seq![]) =~= seq![]);
        assert(texts(patterns@).len() == patterns@.len());
    }
    if endings.len() > 0 && patterns.len() == endings.len() {
        let any = String::from_str("(").concat(join(&choices, " OR ").as_str()).concat(")");
        assert(texts(choices@) =~= Seq::new(plain_endings(list).len(), |k: int| choice));
        add_text(clauses, any);
        let ghost before = texts(params@);
        let ghost added = texts(patterns@);
        params.append(&mut patterns);
        assert(texts(params@) =~= before + added);
    }
    assert(texts(clauses@) =~= texts(old(clauses)@) + all_sql(hold_ending(list)));
    assert(texts(params@) =~= texts(old(params)@) + all_params(hold_ending(list)));
}

/// Adds a condition for every scope that has a literal fragment.
fn add_scopes(scopes: &Vec<String>, clauses: &mut Vec<String>, params: &mut Vec<String>)
    ensures
        texts(final(clauses)@) == texts(old(clauses)@) + all_sql(hold_fragments(texts(scopes@))),
        texts(final(params)@) == texts(old(params)@) + all_params(hold_fragments(texts(scopes@))),
{
    let mut i: usize = 0;
    let ghost list = texts(scopes@);
    assert(texts(clauses@) =~= texts(clauses@) + all_sql(hold_fragments(list.take(0))));
    assert(texts(params@) =~= texts(params@) + all_params(hold_fragments(list.take(0))));
    while i < scopes.len()
        invariant
            i <= scopes@.len(),
            list == texts(scopes@),
            texts(clauses@) == texts(old(clauses)@) + all_sql(hold_fragments(list.take(i as int))),
            texts(params@) == texts(old(params)@) + all_params(hold_fragments(list.take(i as int))),
        decreases scopes@.len() - i,
    {
        let scope = scopes[i].as_str();
        let ghost before = hold_fragments(list.take(i as int));
        assert(list.take(i + 1).drop_last() =~= list.take(i as int));
        assert(list.take(i + 1).last() == scope@);
        if let Some(f) = longest_glob_literal(scope) {
            proof {
                lemma_params_push(before, Condition::Like(holding(f@)));
            }
            add_text(clauses, String::from_str("LOWER(path) LIKE ?"));
            add_text(params, like_holding(f.as_str()));
            assert(texts(clauses@) =~= texts(old(clauses)@) + all_sql(
                hold_fragments(list.take(i + 1)),
            ));
            assert(texts(params@) =~= texts(old(params)@) + all_params(
                hold_fragments(list.take(i + 1)),
            ));
        }
        i += 1;
    }
    assert(list.take(i as int) =~= list);
}

/// The statement and its parameters that fetch the candidates for a plan.
pub fn build_prefilter_query(plan: &QueryPlan) -> (r: (String, Vec<String>))
    ensures
        r.0@ == statement(conditions(plan@)),
        texts(r.1@) == all_params(conditions(plan@)),
{
    let mut clauses: Vec<String> = Vec::new();
    let mut params: Vec<String> = Vec::new();
    let ghost first = if plan@.include_terms.len() > 0 {
        hold_all(plan@.include_terms)
    } else if plan@.ext_filters.len() > 0 {
        hold_ending(plan@.ext_filters)
    } else {
        hold_fragments(plan@.path_globs)
    };
    if !plan.include_terms.is_empty() {
        add_terms(&plan.include_terms, true, &mut clauses, &mut params);
    } else if !plan.ext_filters.is_empty() {
        add_endings(&plan.ext_filters, &mut clauses, &mut params);
    } else {
        add_scopes(&plan.path_globs, &mut clauses, &mut params);
    }
    assert(texts(clauses@) =~= all_sql(first));
    assert(texts(params@) =~= all_params(first));
    add_terms(&plan.exclude_terms, false, &mut clauses, &mut params);
    proof {
        lemma_params_add(first, hold_none(plan@.exclude_terms));
        assert(conditions(plan@) == first + hold_none(plan@.exclude_terms));
        assert(texts(clauses@).len() == conditions(plan@).len());
    }
    let mut sql = String::from_str("SELECT path FROM files");
    if !clauses.is_empty() {
        sql.append(" WHERE ");
        sql.append(join(&clauses, " AND ").as_str());
    }
    sql.append(" LIMIT 4000");
    (sql, params)
}

/// What a search asks of the index, and the plan that its rows are held against.
pub struct SearchRequest {
    pub plan: QueryPlan,
    pub sql: String,
    pub params: Vec<String>,
}

/// What to ask of the index for a search term; nothing if the term asks for nothing.
pub fn search_request(term: &str) -> (r: Option<SearchRequest>)
    ensures
        match r {
            Some(request) => {
                &&& plan_of(words(term@)) != empty_plan()
                &&& request.plan@ == plan_of(words(term@))
                &&& request.sql@ == statement(conditions(plan_of(words(term@))))
                &&& texts(request.params@) == all_params(conditions(plan_of(words(term@))))
            },
            None => plan_of(words(term@)) == empty_plan(),
        },
{
    let plan = parse_query(term);
    if plan.is_empty() {
        return None;
    }
    let (sql, params) = build_prefilter_query(&plan);
    Some(SearchRequest { plan, sql, params })
}

} // verus!
