//! What holds of the score of every path, and of the order that it puts results in.

use crate::laws::parsing::both;
use crate::laws::results::{lemma_result, lemma_sorted};
use crate::query::{basename, empty_plan, normalized, score_of, terms_score, PlanView};
use crate::ranking::{by_rank, ranks_before, results_of, scored, text_le, Ranked};
use crate::text::{occurs, occurs_at};
use vstd::prelude::*;
use vstd::utf8::encode_utf8;

verus! {

/// Every term of a query adds its own points to the score of a path, whatever the other terms
/// add: most if it is the file name, fewer if the file name starts with it, still fewer if it
/// stands in the file name, and fewest if it stands elsewhere in the path.
pub proof fn every_term_adds_its_points(path: Seq<char>, plan: PlanView, term: Seq<char>)
    ensures
        score_of(
            path,
            PlanView { include_terms: plan.include_terms.push(term), ..plan },
        ) == score_of(path, plan) + (if basename(path) == term {
            120int
        } else if term.is_prefix_of(basename(path)) {
            80
        } else if exists|a: Seq<char>, b: Seq<char>| basename(path) == #[trigger] (a + term + b) {
            50
        } else if exists|a: Seq<char>, b: Seq<char>| normalized(path) == #[trigger] (a + term
            + b) {
            20
        } else {
            0
        }),
{
    assert(plan.include_terms.push(term).drop_last() =~= plan.include_terms);
    lemma_occurs(basename(path), term);
    lemma_occurs(normalized(path), term);
}

/// A text stands in another exactly if that one is written as something, the text, and something.
pub proof fn lemma_occurs(hay: Seq<char>, needle: Seq<char>)
    ensures
        occurs(hay, needle) <==> exists|a: Seq<char>, b: Seq<char>| hay == #[trigger] (a + needle
            + b),
{
    if occurs(hay, needle) {
        let at = choose|at: int| occurs_at(hay, needle, at);
        let a = hay.take(at);
        let b = hay.skip(at + needle.len());
        assert(hay =~= a + needle + b);
    }
    if exists|a: Seq<char>, b: Seq<char>| hay == #[trigger] (a + needle + b) {
        let (a, b) = choose|a: Seq<char>, b: Seq<char>| hay == #[trigger] (a + needle + b);
        let at = a.len() as int;
        assert(hay.subrange(at, at + needle.len()) =~= needle);
        assert(occurs_at(hay, needle, at));
    }
}

/// Every ending of a query adds to the score, every scope adds a little less, and an excluded
/// term adds nothing.
pub proof fn endings_and_scopes_add_points(path: Seq<char>, plan: PlanView, text: Seq<char>)
    ensures
        score_of(path, PlanView { ext_filters: plan.ext_filters.push(text), ..plan }) == score_of(
            path,
            plan,
        ) + 20,
        score_of(path, PlanView { path_globs: plan.path_globs.push(text), ..plan }) == score_of(
            path,
            plan,
        ) + 15,
        score_of(path, PlanView { exclude_terms: plan.exclude_terms.push(text), ..plan })
            == score_of(path, plan),
{
}

/// Every byte of a path takes a point: that is all there is to the score if nothing is asked for.
pub proof fn every_byte_takes_a_point(path: Seq<char>)
    ensures
        score_of(path, empty_plan()) == -(encode_utf8(normalized(path)).len() as int),
{
}

proof fn lemma_terms_add(a: Seq<Seq<char>>, b: Seq<Seq<char>>, path: Seq<char>, name: Seq<char>)
    ensures
        terms_score(a + b, path, name) == terms_score(a, path, name) + terms_score(b, path, name),
    decreases b.len(),
{
    if b.len() == 0 {
        assert(a + b =~= a);
    } else {
        lemma_terms_add(a, b.drop_last(), path, name);
        assert((a + b).drop_last() =~= a + b.drop_last());
        assert((a + b).last() == b.last());
    }
}

/// The points of two queries add up; the bytes of the path count once.
pub proof fn points_of_queries_add_up(path: Seq<char>, a: PlanView, b: PlanView)
    ensures
        score_of(path, both(a, b)) == score_of(path, a) + score_of(path, b) + encode_utf8(
            normalized(path),
        ).len(),
{
    lemma_terms_add(a.include_terms, b.include_terms, normalized(path), basename(path));
}

/// The order of texts is that of a dictionary: at the first place where they differ, the one with
/// the smaller character comes first, and a text comes before whatever it is the start of.
pub proof fn texts_are_in_dictionary_order(a: Seq<char>, b: Seq<char>)
    ensures
        text_le(a, b) <==> a.is_prefix_of(b) || exists|k: int|
            0 <= k < a.len() && k < b.len() && a.take(k) == b.take(k) && #[trigger] a[k] < b[k],
    decreases a.len(),
{
    if a.len() == 0 {
        assert(a =~= b.subrange(0, 0));
    } else if b.len() > 0 {
        let x = a.drop_first();
        let y = b.drop_first();
        texts_are_in_dictionary_order(x, y);
        if a[0] < b[0] {
            assert(a.take(0) =~= b.take(0));
        }
        if a[0] == b[0] && text_le(x, y) {
            if x.is_prefix_of(y) {
                assert forall|i: int| 0 <= i < a.len() implies a[i] == b[i] by {
                    if i > 0 {
                        assert(x[i - 1] == y.subrange(0, x.len() as int)[i - 1]);
                    }
                }
                assert(a =~= b.subrange(0, a.len() as int));
            } else {
                let k = choose|k: int|
                    0 <= k < x.len() && k < y.len() && x.take(k) == y.take(k) && #[trigger] x[k]
                        < y[k];
                assert(a[k + 1] < b[k + 1]);
                assert forall|i: int| 0 <= i < k + 1 implies a[i] == b[i] by {
                    if i > 0 {
                        assert(x.take(k)[i - 1] == y.take(k)[i - 1]);
                    }
                }
                assert(a.take(k + 1) =~= b.take(k + 1));
            }
        }
        if a.is_prefix_of(b) {
            assert(a[0] == b.subrange(0, a.len() as int)[0]);
            assert(x =~= y.subrange(0, x.len() as int)) by {
                assert forall|i: int| 0 <= i < x.len() implies x[i] == y[i] by {
                    assert(a[i + 1] == b.subrange(0, a.len() as int)[i + 1]);
                }
            }
        }
        if exists|k: int|
            0 <= k < a.len() && k < b.len() && a.take(k) == b.take(k) && #[trigger] a[k] < b[k] {
            let k = choose|k: int|
                0 <= k < a.len() && k < b.len() && a.take(k) == b.take(k) && #[trigger] a[k]
                    < b[k];
            if k > 0 {
                assert(a.take(k)[0] == b.take(k)[0]);
                assert(x[k - 1] < y[k - 1]);
                assert forall|i: int| 0 <= i < k - 1 implies x[i] == y[i] by {
                    assert(a.take(k)[i + 1] == b.take(k)[i + 1]);
                }
                assert(x.take(k - 1) =~= y.take(k - 1));
            }
        }
    } else if a.is_prefix_of(b) {
        assert(a.len() <= b.len());
    }
}

/// Of two results the one with the higher score comes first; of two with the same score, the one
/// with fewer bytes; of two with as many bytes, the one that a dictionary puts first.
pub proof fn better_results_come_first(rows: Seq<Seq<char>>, plan: PlanView, i: int, j: int)
    requires
        0 <= i < j < results_of(rows, plan).len(),
    ensures
        ({
            let a = results_of(rows, plan)[i];
            let b = results_of(rows, plan)[j];
            let x = score_of(a, plan) as i32;
            let y = score_of(b, plan) as i32;
            let m = encode_utf8(a).len();
            let n = encode_utf8(b).len();
            &&& x >= y
            &&& x == y ==> m <= n
            &&& x == y && m == n ==> a.is_prefix_of(b) || exists|k: int|
                0 <= k < a.len() && k < b.len() && a.take(k) == b.take(k) && #[trigger] a[k]
                    < b[k]
        }),
{
    let a = results_of(rows, plan)[i];
    let b = results_of(rows, plan)[j];
    lemma_result(rows, plan, i);
    lemma_result(rows, plan, j);
    lemma_sorted(rows, plan);
    let order = scored(rows, plan).sort_by(by_rank());
    assert(by_rank()(order[i], order[j]));
    texts_are_in_dictionary_order(a, b);
}

/// A path that matches two terms well comes before one that matches only one of them well and has
/// as many bytes: of two results the one whose terms have more points in all, less its bytes,
/// comes first.
pub proof fn points_of_both_terms_decide(
    rows: Seq<Seq<char>>,
    x: Seq<char>,
    y: Seq<char>,
    i: int,
    j: int,
)
    requires
        ({
            let one = PlanView { include_terms: seq![x], ..empty_plan() };
            let other = PlanView { include_terms: seq![y], ..empty_plan() };
            let plan = both(one, other);
            let (a, b) = (results_of(rows, plan)[i], results_of(rows, plan)[j]);
            let m = score_of(a, one) + score_of(a, other) + encode_utf8(normalized(a)).len();
            let n = score_of(b, one) + score_of(b, other) + encode_utf8(normalized(b)).len();
            &&& 0 <= i < results_of(rows, plan).len()
            &&& 0 <= j < results_of(rows, plan).len()
            &&& i32::MIN <= n < m <= i32::MAX
        }),
    ensures
        i < j,
{
    let one = PlanView { include_terms: seq![x], ..empty_plan() };
    let other = PlanView { include_terms: seq![y], ..empty_plan() };
    let plan = both(one, other);
    let (a, b) = (results_of(rows, plan)[i], results_of(rows, plan)[j]);
    points_of_queries_add_up(a, one, other);
    points_of_queries_add_up(b, one, other);
    if j < i {
        better_results_come_first(rows, plan, j, i);
    }
}

/// What ranks before another has the higher score; or the same score and fewer bytes; or as many
/// bytes too, and comes first in a dictionary, or is the same.
pub proof fn ranks_go_by_score_bytes_and_text(a: Ranked, b: Ranked)
    ensures
        ranks_before(a, b) <==> a.1 > b.1 || (a.1 == b.1 && encode_utf8(a.0).len() < encode_utf8(
            b.0,
        ).len()) || (a.1 == b.1 && encode_utf8(a.0).len() == encode_utf8(b.0).len() && (
        a.0.is_prefix_of(b.0) || exists|k: int|
            0 <= k < a.0.len() && k < b.0.len() && a.0.take(k) == b.0.take(k) && #[trigger] a.0[k]
                < b.0[k])),
{
    texts_are_in_dictionary_order(a.0, b.0);
}

} // verus!
