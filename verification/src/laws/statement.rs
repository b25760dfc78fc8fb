//! What holds of every statement that fetches candidates from the index.

use crate::db::{
    all_params, all_sql, condition_params, condition_sql, conditions, fragment, hold_ending,
    hold_fragments, hold_none, joined_by, longest_fragment, parts_pieces, pieces, plain_endings,
    statement, Condition,
};
use crate::query::PlanView;
use crate::text::{lower, strip, CharClass};
use vstd::prelude::*;
use vstd::utf8::encode_utf8;

verus! {

/// Between every two neighbouring parts of a joined text stands the separator, and nowhere else:
/// joining two lists is joining each of them, with one separator between them.
pub proof fn the_separator_stands_between_parts(
    a: Seq<Seq<char>>,
    b: Seq<Seq<char>>,
    part: Seq<char>,
    sep: Seq<char>,
)
    requires
        a.len() > 0,
        b.len() > 0,
    ensures
        joined_by(a + b, sep) == joined_by(a, sep) + sep + joined_by(b, sep),
        joined_by(seq![part], sep) == part,
        joined_by(seq![], sep) == Seq::<char>::empty(),
    decreases b.len(),
{
    let first = b.drop_last();
    assert((a + b).drop_last() =~= a + first);
    assert((a + b).last() == b.last());
    if b.len() == 1 {
        assert(a + first =~= a);
        assert(joined_by(b, sep) == b[0]);
    } else {
        the_separator_stands_between_parts(a, first, part, sep);
        assert(joined_by(a + b, sep) =~= joined_by(a, sep) + sep + joined_by(b, sep));
    }
}

/// The statement without any condition, and what stands at its end in every case.
pub open spec fn select() -> Seq<char> {
    "SELECT path FROM files"@
}

/// Where the statement ends.
pub open spec fn limit() -> Seq<char> {
    " LIMIT 4000"@
}

/// The conditions of a statement, as they stand in it.
pub open spec fn clauses(list: Seq<Condition>) -> Seq<char> {
    statement(list).subrange(
        (select() + " WHERE "@).len() as int,
        statement(list).len() - limit().len(),
    )
}

/// A statement asks for all its conditions, parted by `AND`: that of two lists of conditions has
/// the conditions of the first, `AND`, and the conditions of the second.
pub proof fn conditions_are_parted_by_and(a: Seq<Condition>, b: Seq<Condition>, c: Condition)
    requires
        a.len() > 0,
        b.len() > 0,
    ensures
        statement(a) == "SELECT path FROM files"@ + " WHERE "@ + clauses(a) + " LIMIT 4000"@,
        clauses(a + b) == clauses(a) + " AND "@ + clauses(b),
        clauses(seq![c]) == condition_sql(c),
        statement(seq![]) == "SELECT path FROM files"@ + " LIMIT 4000"@,
{
    lemma_clauses(a);
    lemma_clauses(b);
    lemma_clauses(a + b);
    lemma_clauses(seq![c]);
    assert(all_sql(a + b) =~= all_sql(a) + all_sql(b));
    the_separator_stands_between_parts(all_sql(a), all_sql(b), condition_sql(c), " AND "@);
    assert(all_sql(seq![c]) =~= seq![condition_sql(c)]);
}

proof fn lemma_clauses(list: Seq<Condition>)
    requires
        list.len() > 0,
    ensures
        clauses(list) == joined_by(all_sql(list), " AND "@),
        statement(list) == select() + " WHERE "@ + clauses(list) + limit(),
{
    let front = select() + " WHERE "@;
    let body = joined_by(all_sql(list), " AND "@);
    assert(statement(list) == front + body + limit());
    assert(statement(list).subrange(
        front.len() as int,
        statement(list).len() - limit().len(),
    ) =~= body);
}

/// A condition in SQL compares the path in lower case: with a pattern, with no pattern, or with
/// several of which one is enough.
pub proof fn conditions_compare_the_path(
    pattern: Seq<char>,
    a: Seq<Seq<char>>,
    b: Seq<Seq<char>>,
)
    requires
        a.len() > 0,
        b.len() > 0,
    ensures
        condition_sql(Condition::Like(pattern)) == "LOWER(path) LIKE ?"@,
        condition_sql(Condition::NotLike(pattern)) == "LOWER(path) NOT LIKE ?"@,
        condition_sql(Condition::LikeAny(seq![pattern])) == "("@ + "LOWER(path) LIKE ?"@ + ")"@,
        condition_sql(Condition::LikeAny(a + b)) == condition_sql(
            Condition::LikeAny(a),
        ).drop_last() + " OR "@ + condition_sql(Condition::LikeAny(b)).drop_first(),
{
    reveal_strlit("(");
    reveal_strlit(")");
    let one = "LOWER(path) LIKE ?"@;
    let f = |n: nat| Seq::new(n, |i: int| one);
    let or = " OR "@;
    assert(f(a.len() + b.len()) =~= f(a.len()) + f(b.len()));
    assert(f(1) =~= seq![one]);
    the_separator_stands_between_parts(f(a.len()), f(b.len()), one, or);
    let x = "("@ + joined_by(f(a.len()), or) + ")"@;
    let y = "("@ + joined_by(f(b.len()), or) + ")"@;
    assert(condition_sql(Condition::LikeAny(a)) == x);
    assert(condition_sql(Condition::LikeAny(b)) == y);
    assert(x.drop_last() =~= "("@ + joined_by(f(a.len()), or));
    assert(y.drop_first() =~= joined_by(f(b.len()), or) + ")"@);
    assert(condition_sql(Condition::LikeAny(a + b)) =~= x.drop_last() + or + y.drop_first());
    assert(condition_sql(Condition::LikeAny(seq![pattern])) == "("@ + one + ")"@);
}

/// How often a character stands in a text.
pub open spec fn how_often(s: Seq<char>, c: char) -> nat
    decreases s.len(),
{
    if s.len() == 0 {
        0
    } else {
        how_often(s.drop_last(), c) + if s.last() == c {
            1nat
        } else {
            0nat
        }
    }
}

proof fn lemma_often(a: Seq<char>, b: Seq<char>, c: char)
    ensures
        how_often(a + b, c) == how_often(a, c) + how_often(b, c),
    decreases b.len(),
{
    if b.len() == 0 {
        assert(a + b =~= a);
    } else {
        lemma_often(a, b.drop_last(), c);
        assert((a + b).drop_last() =~= a + b.drop_last());
        assert((a + b).last() == b.last());
    }
}

proof fn lemma_never(s: Seq<char>, c: char)
    requires
        forall|i: int| #![trigger s[i]] 0 <= i < s.len() ==> s[i] != c,
    ensures
        how_often(s, c) == 0,
    decreases s.len(),
{
    if s.len() > 0 {
        assert(s[s.len() - 1] != c);
        assert forall|i: int| #![trigger s.drop_last()[i]]
            0 <= i < s.drop_last().len() implies s.drop_last()[i] != c by {
            assert(s.drop_last()[i] == s[i]);
        }
        lemma_never(s.drop_last(), c);
    }
}

proof fn lemma_one_mark(text: Seq<char>)
    requires
        text.len() > 0,
        text.last() == '?',
        forall|i: int| #![trigger text[i]] 0 <= i < text.len() - 1 ==> text[i] != '?',
    ensures
        how_often(text, '?') == 1,
{
    let first = text.drop_last();
    assert forall|i: int| #![trigger first[i]] 0 <= i < first.len() implies first[i] != '?' by {
        assert(first[i] == text[i]);
    }
    lemma_never(first, '?');
}

proof fn lemma_joined_marks(parts: Seq<Seq<char>>, sep: Seq<char>)
    requires
        how_often(sep, '?') == 0,
        forall|i: int| #![trigger parts[i]] 0 <= i < parts.len() ==> how_often(parts[i], '?') == 1,
    ensures
        how_often(joined_by(parts, sep), '?') == parts.len(),
    decreases parts.len(),
{
    if parts.len() == 0 {
        assert(joined_by(parts, sep) =~= seq![]);
    } else if parts.len() == 1 {
        assert(how_often(parts[0], '?') == 1);
    } else {
        let first = parts.drop_last();
        assert forall|i: int| #![trigger first[i]] 0 <= i < first.len() implies how_often(
            first[i],
            '?',
        ) == 1 by {
            assert(first[i] == parts[i]);
        }
        lemma_joined_marks(first, sep);
        assert(how_often(parts[parts.len() - 1], '?') == 1);
        lemma_often(joined_by(first, sep), sep, '?');
        lemma_often(joined_by(first, sep) + sep, parts.last(), '?');
    }
}

proof fn lemma_condition_marks(c: Condition)
    ensures
        how_often(condition_sql(c), '?') == condition_params(c).len(),
{
    reveal_strlit("LOWER(path) LIKE ?");
    reveal_strlit("LOWER(path) NOT LIKE ?");
    reveal_strlit("(");
    reveal_strlit(")");
    reveal_strlit(" OR ");
    lemma_one_mark("LOWER(path) LIKE ?"@);
    lemma_one_mark("LOWER(path) NOT LIKE ?"@);
    lemma_never("("@, '?');
    lemma_never(")"@, '?');
    lemma_never(" OR "@, '?');
    if let Condition::LikeAny(patterns) = c {
        let parts = Seq::new(patterns.len(), |i: int| "LOWER(path) LIKE ?"@);
        lemma_joined_marks(parts, " OR "@);
        lemma_often("("@, joined_by(parts, " OR "@), '?');
        lemma_often("("@ + joined_by(parts, " OR "@), ")"@, '?');
    }
}

proof fn lemma_all_marks(list: Seq<Condition>)
    ensures
        how_often(joined_by(all_sql(list), " AND "@), '?') == all_params(list).len(),
    decreases list.len(),
{
    reveal_strlit(" AND ");
    lemma_never(" AND "@, '?');
    let parts = all_sql(list);
    if list.len() == 0 {
        assert(joined_by(parts, " AND "@) =~= seq![]);
    } else {
        let first = list.drop_last();
        lemma_all_marks(first);
        lemma_condition_marks(list.last());
        assert(parts.drop_last() =~= all_sql(first));
        assert(parts.last() == condition_sql(list.last()));
        if list.len() == 1 {
            assert(all_params(first) =~= seq![]);
            assert(parts[0] == condition_sql(list.last()));
        } else {
            let before = joined_by(all_sql(first), " AND "@);
            lemma_often(before, " AND "@, '?');
            lemma_often(before + " AND "@, parts.last(), '?');
        }
    }
}

/// A statement has a `?` for every parameter, no more and no fewer.
pub proof fn every_mark_has_a_parameter(list: Seq<Condition>)
    ensures
        how_often(statement(list), '?') == all_params(list).len(),
{
    reveal_strlit("SELECT path FROM files");
    reveal_strlit(" WHERE ");
    reveal_strlit(" LIMIT 4000");
    lemma_never("SELECT path FROM files"@, '?');
    lemma_never(" WHERE "@, '?');
    lemma_never(" LIMIT 4000"@, '?');
    lemma_all_marks(list);
    let body = joined_by(all_sql(list), " AND "@);
    let front = "SELECT path FROM files"@;
    lemma_often(front, " WHERE "@, '?');
    lemma_often(front + " WHERE "@, body, '?');
    lemma_often(front + " WHERE "@ + body, " LIMIT 4000"@, '?');
    lemma_often(front, " LIMIT 4000"@, '?');
    if list.len() == 0 {
        assert(body =~= seq![]);
    }
}

/// The parameters are the patterns of the conditions, in order.
pub proof fn parameters_are_in_order(a: Seq<Condition>, b: Seq<Condition>, c: Condition)
    ensures
        all_params(a + b) == all_params(a) + all_params(b),
        all_params(seq![c]) == (match c {
            Condition::Like(pattern) => seq![pattern],
            Condition::NotLike(pattern) => seq![pattern],
            Condition::LikeAny(patterns) => patterns,
        }),
        all_params(seq![]) == Seq::<Seq<char>>::empty(),
    decreases b.len(),
{
    assert(seq![c].drop_last() =~= seq![]);
    assert(all_params(seq![]) =~= seq![]);
    assert(all_params(seq![c]) =~= condition_params(c));
    if b.len() == 0 {
        assert(a + b =~= a);
        assert(all_params(a) + all_params(b) =~= all_params(a));
    } else {
        parameters_are_in_order(a, b.drop_last(), c);
        assert((a + b).drop_last() =~= a + b.drop_last());
        assert((a + b).last() == b.last());
        assert(all_params(a + b) =~= all_params(a) + all_params(b));
    }
}

/// A query with terms fetches by all of them, and by all that it excludes: a row must hold every
/// term and no excluded one. Endings and scopes are not asked for then.
pub proof fn terms_are_fetched_by(plan: PlanView)
    requires
        plan.include_terms.len() > 0,
    ensures
        conditions(plan).len() == plan.include_terms.len() + plan.exclude_terms.len(),
        forall|i: int| #![trigger plan.include_terms[i]]
            0 <= i < plan.include_terms.len() ==> conditions(plan)[i] == Condition::Like(
                seq!['%'] + plan.include_terms[i] + seq!['%'],
            ),
        forall|i: int| #![trigger plan.exclude_terms[i]]
            0 <= i < plan.exclude_terms.len() ==> conditions(plan)[plan.include_terms.len() + i]
                == Condition::NotLike(seq!['%'] + plan.exclude_terms[i] + seq!['%']),
{
    assert forall|i: int| #![trigger plan.exclude_terms[i]]
        0 <= i < plan.exclude_terms.len() implies conditions(plan)[plan.include_terms.len() + i]
        == Condition::NotLike(seq!['%'] + plan.exclude_terms[i] + seq!['%']) by {
        assert(conditions(plan)[plan.include_terms.len() + i] == hold_none(
            plan.exclude_terms,
        )[i]);
    }
}

proof fn lemma_plain(endings: Seq<Seq<char>>)
    ensures
        plain_endings(endings).len() <= endings.len(),
        (forall|i: int| #![trigger endings[i]]
            0 <= i < endings.len() ==> !endings[i].contains('*') && !endings[i].contains('?')
                && !endings[i].contains('[')) ==> plain_endings(endings) == endings.map_values(
            |e: Seq<char>| seq!['%'] + e,
        ),
        (exists|i: int| #![trigger endings[i]]
            0 <= i < endings.len() && (endings[i].contains('*') || endings[i].contains('?')
                || endings[i].contains('['))) ==> plain_endings(endings).len() < endings.len(),
    decreases endings.len(),
{
    if endings.len() > 0 {
        let first = endings.drop_last();
        lemma_plain(first);
        assert forall|i: int| #![trigger first[i]] 0 <= i < first.len() implies first[i]
            == endings[i] by {}
        if exists|i: int| #![trigger endings[i]]
            0 <= i < endings.len() && (endings[i].contains('*') || endings[i].contains('?')
                || endings[i].contains('[')) {
            let i = choose|i: int| #![trigger endings[i]]
                0 <= i < endings.len() && (endings[i].contains('*') || endings[i].contains('?')
                    || endings[i].contains('['));
            if i < first.len() {
                assert(first[i] == endings[i]);
            }
        } else {
            assert(!endings[endings.len() - 1].contains('*'));
            assert forall|i: int| #![trigger first[i]] 0 <= i < first.len() implies !first[i]
                .contains('*') && !first[i].contains('?') && !first[i].contains('[') by {
                assert(first[i] == endings[i]);
            }
            assert(plain_endings(endings) =~= endings.map_values(|e: Seq<char>| seq!['%'] + e));
        }
    } else {
        assert(plain_endings(endings) =~= endings.map_values(|e: Seq<char>| seq!['%'] + e));
    }
}

/// A query without terms fetches by its endings: a row must end in one of them. If one of them
/// holds a wildcard, nothing is asked of a row for the endings' sake.
pub proof fn endings_are_fetched_by(plan: PlanView)
    requires
        plan.include_terms.len() == 0,
        plan.exclude_terms.len() == 0,
        plan.ext_filters.len() > 0,
    ensures
        (forall|i: int| #![trigger plan.ext_filters[i]]
            0 <= i < plan.ext_filters.len() ==> !plan.ext_filters[i].contains('*')
                && !plan.ext_filters[i].contains('?') && !plan.ext_filters[i].contains('['))
            ==> conditions(plan) == seq![
            Condition::LikeAny(plan.ext_filters.map_values(|e: Seq<char>| seq!['%'] + e)),
        ],
        (exists|i: int| #![trigger plan.ext_filters[i]]
            0 <= i < plan.ext_filters.len() && (plan.ext_filters[i].contains('*')
                || plan.ext_filters[i].contains('?') || plan.ext_filters[i].contains('[')))
            ==> conditions(plan) == Seq::<Condition>::empty(),
{
    lemma_plain(plan.ext_filters);
    assert(hold_none(plan.exclude_terms) =~= seq![]);
    assert(conditions(plan) =~= hold_ending(plan.ext_filters));
}

/// A pattern falls into pieces at its `*`, `?`, `[` and `]`, and nowhere else.
pub proof fn wildcards_part_pieces(a: Seq<char>, mark: char, b: Seq<char>, literal: Seq<char>)
    requires
        mark == '*' || mark == '?' || mark == '[' || mark == ']',
        forall|i: int| #![trigger literal[i]]
            0 <= i < literal.len() ==> literal[i] != '*' && literal[i] != '?' && literal[i] != '['
                && literal[i] != ']',
    ensures
        pieces(a + seq![mark] + b) == pieces(a) + pieces(b),
        pieces(literal) == seq![literal],
{
    lemma_pieces_add(a, mark, b);
    lemma_one_piece(literal);
}

proof fn lemma_pieces_some(s: Seq<char>)
    ensures
        pieces(s).len() > 0,
    decreases s.len(),
{
    if s.len() > 0 {
        lemma_pieces_some(s.drop_last());
    }
}

proof fn lemma_pieces_add(a: Seq<char>, mark: char, b: Seq<char>)
    requires
        parts_pieces(mark),
    ensures
        pieces(a + seq![mark] + b) == pieces(a) + pieces(b),
    decreases b.len(),
{
    let all = a + seq![mark] + b;
    if b.len() == 0 {
        assert(all.drop_last() =~= a);
        assert(all.last() == mark);
        assert(pieces(all) =~= pieces(a) + pieces(b));
    } else {
        let first = b.drop_last();
        lemma_pieces_add(a, mark, first);
        lemma_pieces_some(first);
        assert(all.drop_last() =~= a + seq![mark] + first);
        assert(all.last() == b.last());
        let x = pieces(a);
        let y = pieces(first);
        assert((x + y).last() == y.last());
        assert((x + y).drop_last() =~= x + y.drop_last());
        assert(pieces(all) =~= pieces(a) + pieces(b));
    }
}

proof fn lemma_one_piece(literal: Seq<char>)
    requires
        forall|i: int| #![trigger literal[i]] 0 <= i < literal.len() ==> !parts_pieces(literal[i]),
    ensures
        pieces(literal) == seq![literal],
    decreases literal.len(),
{
    if literal.len() == 0 {
        assert(literal =~= seq![]);
        assert(pieces(literal) =~= seq![literal]);
    } else {
        let first = literal.drop_last();
        assert forall|i: int| #![trigger first[i]] 0 <= i < first.len() implies !parts_pieces(
            first[i],
        ) by {
            assert(first[i] == literal[i]);
        }
        lemma_one_piece(first);
        assert(!parts_pieces(literal[literal.len() - 1]));
        assert(first.push(literal.last()) =~= literal);
        assert(pieces(literal) =~= seq![literal]);
    }
}

/// A piece in lower case, without the `/` around it.
pub open spec fn bare(piece: Seq<char>) -> Seq<char> {
    lower(strip(piece, CharClass::Only('/')))
}

/// A scope is looked for by the longest of its literal pieces, in lower case and without the `/`
/// around it, and by the last one of several; by none if all are shorter than two bytes.
pub proof fn the_longest_piece_is_looked_for(list: Seq<Seq<char>>)
    ensures
        match longest_fragment(list) {
            Some(f) => {
                &&& encode_utf8(f).len() >= 2
                &&& exists|i: int|
                    #![trigger list[i]]
                    0 <= i < list.len() && f == bare(list[i]) && forall|j: int|
                        i < j < list.len() ==> encode_utf8(bare(#[trigger] list[j])).len()
                            < encode_utf8(f).len()
                &&& forall|i: int|
                    0 <= i < list.len() ==> encode_utf8(bare(#[trigger] list[i])).len()
                        <= encode_utf8(f).len()
            },
            None => forall|i: int|
                0 <= i < list.len() ==> encode_utf8(bare(#[trigger] list[i])).len() < 2,
        },
    decreases list.len(),
{
    if list.len() > 0 {
        let first = list.drop_last();
        the_longest_piece_is_looked_for(first);
        assert(fragment(list.last()) == bare(list[list.len() - 1]));
        assert forall|i: int| #![trigger list[i]] 0 <= i < first.len() implies first[i]
            == list[i] by {}
        if let Some(f) = longest_fragment(first) {
            let k = choose|i: int|
                #![trigger first[i]]
                0 <= i < first.len() && f == bare(first[i]) && forall|j: int|
                    i < j < first.len() ==> encode_utf8(bare(#[trigger] first[j])).len()
                        < encode_utf8(f).len();
            assert(f == bare(list[k]));
            assert forall|j: int| k < j < first.len() implies encode_utf8(
                bare(#[trigger] list[j]),
            ).len() < encode_utf8(f).len() by {
                assert(first[j] == list[j]);
            }
        }
    }
}

/// A query of scopes alone fetches by the longest literal piece of every scope that has one.
pub proof fn scopes_are_fetched_by(plan: PlanView, scope: Seq<char>)
    requires
        plan.include_terms.len() == 0,
        plan.exclude_terms.len() == 0,
        plan.ext_filters.len() == 0,
    ensures
        plan.path_globs.len() == 0 ==> conditions(plan) == Seq::<Condition>::empty(),
        conditions(PlanView { path_globs: plan.path_globs.push(scope), ..plan }) == (
        match longest_fragment(pieces(scope)) {
            Some(f) => conditions(plan).push(Condition::Like(seq!['%'] + f + seq!['%'])),
            None => conditions(plan),
        }),
{
    let more = PlanView { path_globs: plan.path_globs.push(scope), ..plan };
    assert(hold_none(plan.exclude_terms) =~= seq![]);
    assert(conditions(plan) =~= hold_fragments(plan.path_globs));
    assert(conditions(more) =~= hold_fragments(more.path_globs));
    assert(more.path_globs.drop_last() =~= plan.path_globs);
}

/// What a query excludes is asked for in every case, behind whatever else is asked for.
pub proof fn excluded_terms_are_fetched_by(plan: PlanView, term: Seq<char>)
    ensures
        conditions(PlanView { exclude_terms: plan.exclude_terms.push(term), ..plan })
            == conditions(plan).push(Condition::NotLike(seq!['%'] + term + seq!['%'])),
{
    let more = PlanView { exclude_terms: plan.exclude_terms.push(term), ..plan };
    assert(hold_none(more.exclude_terms) =~= hold_none(plan.exclude_terms).push(
        Condition::NotLike(seq!['%'] + term + seq!['%']),
    ));
    assert(conditions(more) =~= conditions(plan).push(
        Condition::NotLike(seq!['%'] + term + seq!['%']),
    ));
}

} // verus!
