//! What holds of the results of every search.

use crate::query::{
    answers, basename, empty_plan, normalized, score_of, term_score, terms_score, PlanView,
};
use crate::ranking::{
    by_rank, rank_is_total, ranks_before, results_of, scored, top, Ranked, MAX_CANDIDATES,
    MAX_RESULTS,
};
use crate::text::occurs;
use vstd::prelude::*;
use vstd::relations::sorted_by;
use vstd::seq_lib::lemma_sorted_unique;
use vstd::utf8::encode_utf8;

verus! {

/// A path with its score.
pub open spec fn rank_of(path: Seq<char>, plan: PlanView) -> Ranked {
    (path, score_of(path, plan) as i32)
}

proof fn lemma_scored(rows: Seq<Seq<char>>, plan: PlanView)
    ensures
        scored(rows, plan).len() <= rows.len(),
        scored(rows, plan).len() <= MAX_CANDIDATES,
        forall|c: Ranked| #[trigger]
            scored(rows, plan).contains(c) ==> rows.contains(c.0) && answers(c.0, plan) && c
                == rank_of(c.0, plan),
        rows.len() <= MAX_CANDIDATES ==> forall|path: Seq<char>|
            rows.contains(path) && answers(path, plan) ==> scored(rows, plan).contains(
                #[trigger] rank_of(path, plan),
            ),
    decreases rows.len(),
{
    if rows.len() > 0 {
        let first = rows.drop_last();
        let last = rows.last();
        lemma_scored(first, plan);
        let before = scored(first, plan);
        let all = scored(rows, plan);
        assert forall|c: Ranked| #[trigger] all.contains(c) implies rows.contains(c.0) && answers(
            c.0,
            plan,
        ) && c == rank_of(c.0, plan) by {
            let i = choose|i: int| 0 <= i < all.len() && all[i] == c;
            if i < before.len() {
                assert(before[i] == c);
                assert(before.contains(c));
                let k = choose|k: int| 0 <= k < first.len() && first[k] == c.0;
                assert(rows[k] == c.0);
            } else {
                assert(rows[rows.len() - 1] == c.0);
            }
        }
        if rows.len() <= MAX_CANDIDATES {
            assert forall|path: Seq<char>|
                rows.contains(path) && answers(path, plan) implies all.contains(
                #[trigger] rank_of(path, plan),
            ) by {
                if first.contains(path) {
                    let c = rank_of(path, plan);
                    assert(before.contains(c));
                    let i = choose|i: int| 0 <= i < before.len() && before[i] == c;
                    assert(all[i] == c);
                } else {
                    let k = choose|k: int| 0 <= k < rows.len() && rows[k] == path;
                    if k < first.len() {
                        assert(first[k] == path);
                    }
                    assert(all[before.len() as int] == rank_of(path, plan));
                }
            }
        }
    }
}

/// What is sorted by rank holds what it held before.
pub proof fn lemma_sorted(rows: Seq<Seq<char>>, plan: PlanView)
    ensures
        ({
            let list = scored(rows, plan);
            let order = list.sort_by(by_rank());
            &&& sorted_by(order, by_rank())
            &&& order.len() == list.len()
            &&& forall|c: Ranked| #[trigger] order.contains(c) <==> list.contains(c)
        }),
{
    broadcast use vstd::seq_lib::group_to_multiset_ensures;

    let list = scored(rows, plan);
    let order = list.sort_by(by_rank());
    rank_is_total();
    list.lemma_sort_by_ensures(by_rank());
    assert(list.len() == list.to_multiset().len());
    assert(order.len() == order.to_multiset().len());
    assert forall|c: Ranked| #[trigger] order.contains(c) <==> list.contains(c) by {
        assert(order.contains(c) <==> order.to_multiset().count(c) > 0);
        assert(list.contains(c) <==> list.to_multiset().count(c) > 0);
    }
}

/// Where a result stands among the rows that answer.
pub proof fn lemma_result(rows: Seq<Seq<char>>, plan: PlanView, i: int)
    requires
        0 <= i < results_of(rows, plan).len(),
    ensures
        ({
            let order = scored(rows, plan).sort_by(by_rank());
            let path = results_of(rows, plan)[i];
            &&& i < order.len()
            &&& order[i] == rank_of(path, plan)
            &&& rows.contains(path)
            &&& answers(path, plan)
        }),
{
    lemma_scored(rows, plan);
    lemma_sorted(rows, plan);
    let order = scored(rows, plan).sort_by(by_rank());
    assert(top(order)[i] == order[i]);
    assert(order.contains(order[i]));
}

/// A search gives back at most so many paths, however many answer it.
pub proof fn results_are_capped(rows: Seq<Seq<char>>, plan: PlanView)
    ensures
        results_of(rows, plan).len() <= MAX_RESULTS,
        results_of(rows, plan).len() <= rows.len(),
{
    lemma_scored(rows, plan);
    lemma_sorted(rows, plan);
}

/// Every result is a row of the index that answers the query.
pub proof fn results_answer(rows: Seq<Seq<char>>, plan: PlanView, i: int)
    requires
        0 <= i < results_of(rows, plan).len(),
    ensures
        rows.contains(results_of(rows, plan)[i]),
        answers(results_of(rows, plan)[i], plan),
{
    lemma_result(rows, plan, i);
}

/// No result holds an excluded term.
pub proof fn excluded_terms_never_show(rows: Seq<Seq<char>>, plan: PlanView, i: int, k: int)
    requires
        0 <= i < results_of(rows, plan).len(),
        0 <= k < plan.exclude_terms.len(),
    ensures
        !occurs(normalized(results_of(rows, plan)[i]), plan.exclude_terms[k]),
        !occurs(basename(results_of(rows, plan)[i]), plan.exclude_terms[k]),
{
    lemma_result(rows, plan, i);
}

/// Results come in order: a higher score first, then the shorter path, then by text.
pub proof fn results_are_in_order(rows: Seq<Seq<char>>, plan: PlanView, i: int, j: int)
    requires
        0 <= i < j < results_of(rows, plan).len(),
    ensures
        ranks_before(
            rank_of(results_of(rows, plan)[i], plan),
            rank_of(results_of(rows, plan)[j], plan),
        ),
{
    lemma_result(rows, plan, i);
    lemma_result(rows, plan, j);
    lemma_sorted(rows, plan);
    let order = scored(rows, plan).sort_by(by_rank());
    assert(by_rank()(order[i], order[j]));
}

/// As long as no more rows came than a search looks at, and no more of them answer than it gives
/// back, every row that answers is a result.
pub proof fn few_answers_all_show(rows: Seq<Seq<char>>, plan: PlanView, path: Seq<char>)
    requires
        rows.len() <= MAX_CANDIDATES,
        scored(rows, plan).len() <= MAX_RESULTS,
        rows.contains(path),
        answers(path, plan),
    ensures
        results_of(rows, plan).contains(path),
{
    lemma_scored(rows, plan);
    lemma_sorted(rows, plan);
    let order = scored(rows, plan).sort_by(by_rank());
    let c = rank_of(path, plan);
    assert(order.contains(c));
    let i = choose|i: int| 0 <= i < order.len() && order[i] == c;
    assert(results_of(rows, plan)[i] == path);
}

/// All rows that answer a plan, with their scores.
pub open spec fn all_answers(rows: Seq<Seq<char>>, plan: PlanView) -> Seq<Ranked>
    decreases rows.len(),
{
    if rows.len() == 0 {
        seq![]
    } else if answers(rows.last(), plan) {
        all_answers(rows.drop_last(), plan).push(rank_of(rows.last(), plan))
    } else {
        all_answers(rows.drop_last(), plan)
    }
}

proof fn lemma_all_answers(rows: Seq<Seq<char>>, plan: PlanView)
    requires
        rows.len() <= MAX_CANDIDATES,
    ensures
        scored(rows, plan) == all_answers(rows, plan),
    decreases rows.len(),
{
    if rows.len() > 0 {
        lemma_all_answers(rows.drop_last(), plan);
        lemma_scored(rows.drop_last(), plan);
    }
}

/// As long as no more rows came than a search looks at, the results are the first of all rows
/// that answer, in order.
pub proof fn results_are_the_first_answers(rows: Seq<Seq<char>>, plan: PlanView)
    requires
        rows.len() <= MAX_CANDIDATES,
    ensures
        results_of(rows, plan) == top(all_answers(rows, plan).sort_by(by_rank())).map_values(
            |c: Ranked| c.0,
        ),
{
    lemma_all_answers(rows, plan);
}

/// What does not show is no better: as long as no more rows came than a search looks at, every
/// row that answers and is not a result ranks behind every result.
pub proof fn the_best_show(rows: Seq<Seq<char>>, plan: PlanView, path: Seq<char>, i: int)
    requires
        rows.len() <= MAX_CANDIDATES,
        rows.contains(path),
        answers(path, plan),
        !results_of(rows, plan).contains(path),
        0 <= i < results_of(rows, plan).len(),
    ensures
        ranks_before(rank_of(results_of(rows, plan)[i], plan), rank_of(path, plan)),
{
    lemma_scored(rows, plan);
    lemma_sorted(rows, plan);
    lemma_result(rows, plan, i);
    let order = scored(rows, plan).sort_by(by_rank());
    let c = rank_of(path, plan);
    assert(order.contains(c));
    let j = choose|j: int| 0 <= j < order.len() && order[j] == c;
    if j <= i {
        assert(results_of(rows, plan)[j] == path);
    }
    assert(by_rank()(order[i], order[j]));
}

proof fn lemma_counted(rows: Seq<Seq<char>>, plan: PlanView, c: Ranked)
    requires
        rows.len() <= MAX_CANDIDATES,
    ensures
        scored(rows, plan).to_multiset().count(c) == (if answers(c.0, plan) && c == rank_of(
            c.0,
            plan,
        ) {
            rows.to_multiset().count(c.0)
        } else {
            0
        }),
    decreases rows.len(),
{
    broadcast use vstd::seq_lib::group_to_multiset_ensures;

    if rows.len() > 0 {
        let first = rows.drop_last();
        lemma_counted(first, plan, c);
        lemma_scored(first, plan);
        assert(rows =~= first.push(rows.last()));
    } else {
        assert(rows =~= seq![]);
        assert(scored(rows, plan) =~= seq![]);
        assert(!rows.contains(c.0));
        assert(!scored(rows, plan).contains(c));
    }
}

/// What does not answer does not matter, nor does the order of what does: two lists of rows that
/// hold every answer equally often give the same results, as long as neither holds more rows than
/// a search looks at.
pub proof fn answers_alone_matter(a: Seq<Seq<char>>, b: Seq<Seq<char>>, plan: PlanView)
    requires
        a.len() <= MAX_CANDIDATES,
        b.len() <= MAX_CANDIDATES,
        forall|path: Seq<char>|
            answers(path, plan) ==> #[trigger] a.to_multiset().count(path)
                == b.to_multiset().count(path),
    ensures
        results_of(a, plan) == results_of(b, plan),
{
    let x = scored(a, plan);
    let y = scored(b, plan);
    assert forall|c: Ranked| x.to_multiset().count(c) == #[trigger] y.to_multiset().count(c) by {
        lemma_counted(a, plan, c);
        lemma_counted(b, plan, c);
        assert(answers(c.0, plan) ==> a.to_multiset().count(c.0) == b.to_multiset().count(c.0));
    }
    assert(x.to_multiset() =~= y.to_multiset());
    rank_is_total();
    x.lemma_sort_by_ensures(by_rank());
    y.lemma_sort_by_ensures(by_rank());
    lemma_sorted_unique(x.sort_by(by_rank()), y.sort_by(by_rank()), by_rank());
}

/// The order in which the index gives its rows does not matter, as long as no more came than a
/// search looks at.
pub proof fn row_order_does_not_matter(a: Seq<Seq<char>>, b: Seq<Seq<char>>, plan: PlanView)
    requires
        a.to_multiset() == b.to_multiset(),
        a.len() <= MAX_CANDIDATES,
    ensures
        results_of(a, plan) == results_of(b, plan),
{
    broadcast use vstd::seq_lib::group_to_multiset_ensures;

    assert(a.len() == a.to_multiset().len());
    assert(b.len() == b.to_multiset().len());
    answers_alone_matter(a, b, plan);
}

/// The plan of one term alone.
pub open spec fn one_term(term: Seq<char>) -> PlanView {
    PlanView { include_terms: seq![term], ..empty_plan() }
}

/// A match in the file name counts for more than one elsewhere in the path: of two paths, the
/// one with the better match ranks first, unless it is longer by as many bytes as its match is
/// better.
pub proof fn better_matches_rank_first(term: Seq<char>, a: Seq<char>, b: Seq<char>)
    requires
        encode_utf8(normalized(a)).len() <= i32::MAX,
        encode_utf8(normalized(b)).len() <= i32::MAX,
        term_score(term, normalized(a), basename(a)) - term_score(
            term,
            normalized(b),
            basename(b),
        ) > encode_utf8(normalized(a)).len() - encode_utf8(normalized(b)).len(),
    ensures
        ranks_before(rank_of(a, one_term(term)), rank_of(b, one_term(term))),
        !ranks_before(rank_of(b, one_term(term)), rank_of(a, one_term(term))),
{
    let plan = one_term(term);
    assert(plan.include_terms.drop_last() =~= seq![]);
    lemma_one(term, normalized(a), basename(a));
    lemma_one(term, normalized(b), basename(b));
}

proof fn lemma_one(term: Seq<char>, path: Seq<char>, name: Seq<char>)
    ensures
        terms_score(seq![term], path, name) == term_score(term, path, name),
{
    assert(seq![term].drop_last() =~= seq![]);
    assert(terms_score(seq![], path, name) == 0);
}

/// The ways in which a term can stand in a path, from the best to the worst: it is the file name,
/// the file name starts with it, it stands in the file name, it stands in the path.
pub proof fn matches_have_tiers(term: Seq<char>, path: Seq<char>, name: Seq<char>)
    ensures
        name == term ==> term_score(term, path, name) == 120,
        name != term && term.is_prefix_of(name) ==> term_score(term, path, name) == 80,
        !term.is_prefix_of(name) && occurs(name, term) ==> term_score(term, path, name) == 50,
        !occurs(name, term) && occurs(path, term) ==> term_score(term, path, name) == 20,
        !occurs(name, term) && !occurs(path, term) ==> term_score(term, path, name) == 0,
{
    if term.is_prefix_of(name) {
        assert(crate::text::occurs_at(name, term, 0));
    }
    if name == term {
        assert(term.is_prefix_of(name));
    }
}

proof fn lemma_row_left_out(
    a: Seq<Seq<char>>,
    row: Seq<char>,
    b: Seq<Seq<char>>,
    plan: PlanView,
)
    requires
        !answers(row, plan),
    ensures
        scored(a + seq![row] + b, plan) == scored(a + b, plan),
    decreases b.len(),
{
    let all = a + seq![row] + b;
    if b.len() == 0 {
        assert(all.drop_last() =~= a);
        assert(all.last() == row);
        assert(a + b =~= a);
    } else {
        lemma_row_left_out(a, row, b.drop_last(), plan);
        assert(all.drop_last() =~= a + seq![row] + b.drop_last());
        assert((a + b).drop_last() =~= a + b.drop_last());
        assert(all.last() == b.last() && (a + b).last() == b.last());
    }
}

/// A row that does not answer changes nothing, wherever it stands and however many there are.
pub proof fn other_rows_do_not_matter(
    a: Seq<Seq<char>>,
    row: Seq<char>,
    b: Seq<Seq<char>>,
    plan: PlanView,
)
    requires
        !answers(row, plan),
    ensures
        results_of(a + seq![row] + b, plan) == results_of(a + b, plan),
{
    lemma_row_left_out(a, row, b, plan);
}

/// Every row of a list answers a query.
pub open spec fn all_answer(rows: Seq<Seq<char>>, plan: PlanView) -> bool {
    forall|i: int| 0 <= i < rows.len() ==> answers(#[trigger] rows[i], plan)
}

proof fn lemma_all_count(rows: Seq<Seq<char>>, plan: PlanView)
    requires
        all_answer(rows, plan),
    ensures
        scored(rows, plan).len() == (if rows.len() <= 4000 {
            rows.len()
        } else {
            4000
        }),
    decreases rows.len(),
{
    if rows.len() > 0 {
        let first = rows.drop_last();
        assert forall|i: int| 0 <= i < first.len() implies answers(#[trigger] first[i], plan) by {
            assert(first[i] == rows[i]);
        }
        lemma_all_count(first, plan);
        assert(answers(rows[rows.len() - 1], plan));
    }
}

/// As long as at most four thousand rows answer, the best five hundred of them show, or all if
/// there are no more.
pub proof fn five_hundred_answers_show(rows: Seq<Seq<char>>, plan: PlanView)
    requires
        all_answer(rows, plan),
        rows.len() <= 4000,
    ensures
        results_of(rows, plan).len() == (if rows.len() <= 500 {
            rows.len()
        } else {
            500
        }),
        rows.len() <= 500 ==> forall|path: Seq<char>| #[trigger]
            results_of(rows, plan).contains(path) <==> rows.contains(path),
{
    lemma_all_count(rows, plan);
    lemma_sorted(rows, plan);
    if rows.len() <= 500 {
        assert forall|path: Seq<char>| #[trigger]
            results_of(rows, plan).contains(path) <==> rows.contains(path) by {
            if rows.contains(path) {
                let i = choose|i: int| 0 <= i < rows.len() && rows[i] == path;
                assert(answers(rows[i], plan));
                few_answers_all_show(rows, plan, path);
            }
            if results_of(rows, plan).contains(path) {
                let i = choose|i: int|
                    0 <= i < results_of(rows, plan).len() && results_of(rows, plan)[i] == path;
                lemma_result(rows, plan, i);
            }
        }
    }
}

proof fn lemma_enough(a: Seq<Seq<char>>, b: Seq<Seq<char>>, plan: PlanView)
    requires
        scored(a, plan).len() == 4000,
    ensures
        scored(a + b, plan) == scored(a, plan),
    decreases b.len(),
{
    if b.len() == 0 {
        assert(a + b =~= a);
    } else {
        lemma_enough(a, b.drop_last(), plan);
        assert((a + b).drop_last() =~= a + b.drop_last());
    }
}

/// A search looks at the first four thousand rows that answer and at none behind them.
pub proof fn four_thousand_answers_are_enough(
    a: Seq<Seq<char>>,
    b: Seq<Seq<char>>,
    plan: PlanView,
)
    requires
        all_answer(a, plan),
        a.len() == 4000,
    ensures
        results_of(a + b, plan) == results_of(a, plan),
{
    lemma_all_count(a, plan);
    lemma_enough(a, b, plan);
}

} // verus!
