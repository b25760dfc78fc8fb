//! The order of search results.

use crate::query::{answers, path_matches_query, score_of, score_path, PlanView, QueryPlan};
use crate::text::{texts, to_chars};
use vstd::multiset::Multiset;
use vstd::prelude::*;
use vstd::relations::{sorted_by, total_ordering};
use vstd::seq_lib::{lemma_multiset_commutative, lemma_sorted_unique};
use vstd::utf8::encode_utf8;

verus! {

/// A path that answers a query, with its score.
pub struct Candidate {
    pub path: String,
    pub score: i32,
}

/// A path and its score.
pub type Ranked = (Seq<char>, i32);

impl View for Candidate {
    type V = Ranked;

    open spec fn view(&self) -> Ranked {
        (self.path@, self.score)
    }
}

/// The order of texts by their characters.
pub open spec fn text_le(a: Seq<char>, b: Seq<char>) -> bool
    decreases a.len(),
{
    if a.len() == 0 {
        true
    } else if b.len() == 0 {
        false
    } else {
        a[0] < b[0] || (a[0] == b[0] && text_le(a.drop_first(), b.drop_first()))
    }
}

/// The order of results: a higher score first, then fewer bytes, then the path itself.
pub open spec fn ranks_before(a: Ranked, b: Ranked) -> bool {
    if a.1 != b.1 {
        a.1 > b.1
    } else if encode_utf8(a.0).len() != encode_utf8(b.0).len() {
        encode_utf8(a.0).len() < encode_utf8(b.0).len()
    } else {
        text_le(a.0, b.0)
    }
}

/// The order of results, as a relation.
pub open spec fn by_rank() -> spec_fn(Ranked, Ranked) -> bool {
    |a: Ranked, b: Ranked| ranks_before(a, b)
}

proof fn lemma_text_le_refl(a: Seq<char>)
    ensures
        text_le(a, a),
    decreases a.len(),
{
    if a.len() > 0 {
        lemma_text_le_refl(a.drop_first());
    }
}

proof fn lemma_text_le_anti(a: Seq<char>, b: Seq<char>)
    requires
        text_le(a, b),
        text_le(b, a),
    ensures
        a == b,
    decreases a.len(),
{
    if a.len() > 0 && b.len() > 0 {
        lemma_text_le_anti(a.drop_first(), b.drop_first());
        assert(a =~= seq![a[0]] + a.drop_first());
        assert(b =~= seq![b[0]] + b.drop_first());
    } else {
        assert(a =~= b);
    }
}

proof fn lemma_text_le_trans(a: Seq<char>, b: Seq<char>, c: Seq<char>)
    requires
        text_le(a, b),
        text_le(b, c),
    ensures
        text_le(a, c),
    decreases a.len(),
{
    if a.len() > 0 && b.len() > 0 && c.len() > 0 && a[0] == b[0] && b[0] == c[0] {
        lemma_text_le_trans(a.drop_first(), b.drop_first(), c.drop_first());
    }
}

proof fn lemma_text_le_total(a: Seq<char>, b: Seq<char>)
    ensures
        text_le(a, b) || text_le(b, a),
    decreases a.len(),
{
    if a.len() > 0 && b.len() > 0 {
        lemma_text_le_total(a.drop_first(), b.drop_first());
    }
}

/// The order of results is total: of two results one always comes first, and two that each come
/// before the other are the same.
pub proof fn rank_is_total()
    ensures
        total_ordering(by_rank()),
{
    let r = by_rank();
    assert forall|x: Ranked| #[trigger] r(x, x) by {
        lemma_text_le_refl(x.0);
    }
    assert forall|x: Ranked, y: Ranked| #[trigger] r(x, y) && #[trigger] r(y, x) implies x == y by {
        lemma_text_le_anti(x.0, y.0);
    }
    assert forall|x: Ranked, y: Ranked, z: Ranked| #[trigger]
        r(x, y) && #[trigger] r(y, z) implies r(x, z) by {
        if x.1 == y.1 && y.1 == z.1 && encode_utf8(x.0).len() == encode_utf8(y.0).len()
            && encode_utf8(y.0).len() == encode_utf8(z.0).len() {
            lemma_text_le_trans(x.0, y.0, z.0);
        }
    }
    assert forall|x: Ranked, y: Ranked| #[trigger] r(x, y) || #[trigger] r(y, x) by {
        lemma_text_le_total(x.0, y.0);
    }
}

/// Tells whether a text comes before another, or is the same.
fn text_at_most(a: &Vec<char>, b: &Vec<char>) -> (r: bool)
    ensures
        r == text_le(a@, b@),
{
    let mut i: usize = 0;
    assert(a@.skip(0) =~= a@ && b@.skip(0) =~= b@);
    while i < a.len() && i < b.len() && a[i] == b[i]
        invariant
            i <= a@.len(),
            i <= b@.len(),
            text_le(a@, b@) == text_le(a@.skip(i as int), b@.skip(i as int)),
        decreases a@.len() - i,
    {
        assert(a@.skip(i as int).drop_first() =~= a@.skip(i + 1));
        assert(b@.skip(i as int).drop_first() =~= b@.skip(i + 1));
        i += 1;
    }
    if i == a.len() {
        true
    } else if i == b.len() {
        false
    } else {
        a[i] < b[i]
    }
}

/// Tells whether a candidate ranks before another, or is the same.
pub fn precedes(a: &Candidate, b: &Candidate) -> (r: bool)
    ensures
        r == ranks_before(a@, b@),
{
    if a.score != b.score {
        return a.score > b.score;
    }
    let size_a = a.path.as_str().as_bytes().len();
    let size_b = b.path.as_str().as_bytes().len();
    if size_a != size_b {
        return size_a < size_b;
    }
    text_at_most(&to_chars(a.path.as_str()), &to_chars(b.path.as_str()))
}

/// The candidates as paths with scores.
pub open spec fn ranked(list: Seq<Candidate>) -> Seq<Ranked> {
    list.map_values(|c: Candidate| c@)
}

/// Merges two lists of candidates that are in order, with the worst candidate first.
fn merge_back(left: Vec<Candidate>, right: Vec<Candidate>) -> (r: Vec<Candidate>)
    requires
        sorted_by(ranked(left@), by_rank()),
        sorted_by(ranked(right@), by_rank()),
    ensures
        sorted_by(ranked(r@).reverse(), by_rank()),
        ranked(r@).to_multiset() == ranked(left@).to_multiset().add(ranked(right@).to_multiset()),
{
    let mut a = left;
    let mut b = right;
    let mut out: Vec<Candidate> = Vec::new();
    let ghost total = ranked(left@).to_multiset().add(ranked(right@).to_multiset());
    proof {
        broadcast use vstd::seq_lib::group_to_multiset_ensures;
        assert(ranked(out@) =~= seq![]);
        assert(ranked(out@).to_multiset() =~= Multiset::empty());
        assert(total =~= total.add(ranked(out@).to_multiset()));
    }
    while a.len() > 0 || b.len() > 0
        invariant
            sorted_by(ranked(a@), by_rank()),
            sorted_by(ranked(b@), by_rank()),
            forall|i: int, j: int| #![trigger out@[i], out@[j]]
                0 <= i < j < out@.len() ==> ranks_before(out@[j]@, out@[i]@),
            forall|i: int, j: int| #![trigger a@[i], out@[j]]
                0 <= i < a@.len() && 0 <= j < out@.len() ==> ranks_before(a@[i]@, out@[j]@),
            forall|i: int, j: int| #![trigger b@[i], out@[j]]
                0 <= i < b@.len() && 0 <= j < out@.len() ==> ranks_before(b@[i]@, out@[j]@),
            total == ranked(a@).to_multiset().add(ranked(b@).to_multiset()).add(
                ranked(out@).to_multiset(),
            ),
        decreases a@.len() + b@.len(),
    {
        let from_b = a.len() == 0 || (b.len() > 0 && precedes(&a[a.len() - 1], &b[b.len() - 1]));
        let ghost a0 = a@;
        let ghost b0 = b@;
        let ghost out0 = out@;
        proof {
            broadcast use vstd::seq_lib::group_to_multiset_ensures;
            rank_is_total();
            assert forall|i: int| #![trigger a0[i]] 0 <= i < a0.len() implies ranks_before(
                a0[i]@,
                a0.last()@,
            ) by {
                assert(by_rank()(a0.last()@, a0.last()@));
                if i < a0.len() - 1 {
                    assert(by_rank()(ranked(a0)[i], ranked(a0)[a0.len() - 1]));
                }
            }
            assert forall|i: int| #![trigger b0[i]] 0 <= i < b0.len() implies ranks_before(
                b0[i]@,
                b0.last()@,
            ) by {
                assert(by_rank()(b0.last()@, b0.last()@));
                if i < b0.len() - 1 {
                    assert(by_rank()(ranked(b0)[i], ranked(b0)[b0.len() - 1]));
                }
            }
        }
        if from_b {
            let c = b.pop().unwrap();
            out.push(c);
            proof {
                assert(b0 =~= b@.push(c));
                lemma_moved(b0, out0, c, b@, out@);
                assert forall|i: int| #![trigger a@[i]] 0 <= i < a@.len() implies ranks_before(
                    a@[i]@,
                    c@,
                ) by {
                    assert(by_rank()(a@[i]@, a@.last()@));
                    assert(by_rank()(a@.last()@, c@));
                    rank_is_total();
                }
                assert(total =~= ranked(a@).to_multiset().add(ranked(b@).to_multiset()).add(
                    ranked(out@).to_multiset(),
                ));
            }
        } else {
            let c = a.pop().unwrap();
            out.push(c);
            proof {
                assert(a0 =~= a@.push(c));
                lemma_moved(a0, out0, c, a@, out@);
                assert forall|i: int| #![trigger b@[i]] 0 <= i < b@.len() implies ranks_before(
                    b@[i]@,
                    c@,
                ) by {
                    rank_is_total();
                    assert(by_rank()(c@, b@.last()@) || by_rank()(b@.last()@, c@));
                    assert(by_rank()(b@[i]@, b@.last()@));
                    assert(by_rank()(b@.last()@, c@));
                }
                assert(total =~= ranked(a@).to_multiset().add(ranked(b@).to_multiset()).add(
                    ranked(out@).to_multiset(),
                ));
            }
        }
    }
    proof {
        broadcast use vstd::seq_lib::group_to_multiset_ensures;
        assert(ranked(a@) =~= seq![] && ranked(b@) =~= seq![]);
        assert(ranked(a@).to_multiset() =~= Multiset::empty());
        assert(total =~= ranked(out@).to_multiset());
        let rev = ranked(out@).reverse();
        assert forall|i: int, j: int| 0 <= i < j < rev.len() implies #[trigger] by_rank()(
            rev[i],
            rev[j],
        ) by {
            let n = out@.len();
            assert(rev[i] == out@[n - 1 - i]@);
            assert(rev[j] == out@[n - 1 - j]@);
        }
    }
    out
}

/// Moving the last candidate of one list behind another moves its rank.
proof fn lemma_moved(
    from0: Seq<Candidate>,
    to0: Seq<Candidate>,
    c: Candidate,
    from: Seq<Candidate>,
    to: Seq<Candidate>,
)
    requires
        from0 == from.push(c),
        to == to0.push(c),
        sorted_by(ranked(from0), by_rank()),
    ensures
        sorted_by(ranked(from), by_rank()),
        ranked(from0).to_multiset() == ranked(from).to_multiset().insert(c@),
        ranked(to).to_multiset() == ranked(to0).to_multiset().insert(c@),
{
    broadcast use vstd::seq_lib::group_to_multiset_ensures;

    assert(ranked(from0) =~= ranked(from).push(c@));
    assert(ranked(to) =~= ranked(to0).push(c@));
    assert forall|i: int, j: int| 0 <= i < j < ranked(from).len() implies #[trigger] by_rank()(
        ranked(from)[i],
        ranked(from)[j],
    ) by {
        assert(by_rank()(ranked(from0)[i], ranked(from0)[j]));
    }
}

/// Turns a list around.
fn turn_around(list: Vec<Candidate>) -> (r: Vec<Candidate>)
    ensures
        r@ == list@.reverse(),
{
    let mut from = list;
    let mut r: Vec<Candidate> = Vec::new();
    while from.len() > 0
        invariant
            from@.len() + r@.len() == list@.len(),
            from@ == list@.take(from@.len() as int),
            r@ == list@.skip(from@.len() as int).reverse(),
        decreases from@.len(),
    {
        let ghost n = from@.len() as int;
        let c = from.pop().unwrap();
        r.push(c);
        assert(from@ =~= list@.take(n - 1));
        assert(r@ =~= list@.skip(n - 1).reverse());
    }
    assert(list@.skip(0) =~= list@);
    r
}

/// Puts candidates in order.
pub fn sort(list: Vec<Candidate>) -> (r: Vec<Candidate>)
    ensures
        ranked(r@) == ranked(list@).sort_by(by_rank()),
    decreases list@.len(),
{
    proof {
        rank_is_total();
        ranked(list@).lemma_sort_by_ensures(by_rank());
    }
    if list.len() < 2 {
        proof {
            lemma_sorted_unique(ranked(list@), ranked(list@).sort_by(by_rank()), by_rank());
        }
        return list;
    }
    let ghost all = list@;
    let mut left = list;
    let mid = left.len() / 2;
    let right = left.split_off(mid);
    proof {
        ranked(left@).lemma_sort_by_ensures(by_rank());
        ranked(right@).lemma_sort_by_ensures(by_rank());
        lemma_multiset_commutative(ranked(left@), ranked(right@));
        assert(ranked(all) =~= ranked(left@) + ranked(right@));
    }
    let back = merge_back(sort(left), sort(right));
    let r = turn_around(back);
    proof {
        ranked(back@).lemma_reverse_to_multiset();
        assert(ranked(r@) =~= ranked(back@).reverse());
        lemma_sorted_unique(ranked(r@), ranked(all).sort_by(by_rank()), by_rank());
    }
    r
}

/// How many candidates a search looks at.
pub const MAX_CANDIDATES: usize = 4000;

/// How many paths a search gives back.
pub const MAX_RESULTS: usize = 500;

/// The rows that answer a plan, with their scores, as far as a search looks.
pub open spec fn scored(rows: Seq<Seq<char>>, plan: PlanView) -> Seq<Ranked>
    decreases rows.len(),
{
    if rows.len() == 0 {
        seq![]
    } else {
        let before = scored(rows.drop_last(), plan);
        if before.len() < MAX_CANDIDATES && answers(rows.last(), plan) {
            before.push((rows.last(), score_of(rows.last(), plan) as i32))
        } else {
            before
        }
    }
}

/// The first results of a list.
pub open spec fn top(list: Seq<Ranked>) -> Seq<Ranked> {
    if list.len() > MAX_RESULTS {
        list.take(MAX_RESULTS as int)
    } else {
        list
    }
}

/// The results of a search among the rows that the index gave: the best of those that answer
/// the plan, in order.
pub open spec fn results_of(rows: Seq<Seq<char>>, plan: PlanView) -> Seq<Seq<char>> {
    top(scored(rows, plan).sort_by(by_rank())).map_values(|c: Ranked| c.0)
}

proof fn lemma_scored_full(rows: Seq<Seq<char>>, plan: PlanView, k: int)
    requires
        0 <= k <= rows.len(),
        scored(rows.take(k), plan).len() >= MAX_CANDIDATES,
    ensures
        scored(rows, plan) == scored(rows.take(k), plan),
    decreases rows.len() - k,
{
    if k < rows.len() {
        assert(rows.take(k + 1).drop_last() =~= rows.take(k));
        lemma_scored_full(rows, plan, k + 1);
    } else {
        assert(rows.take(k) =~= rows);
    }
}

/// Picks and orders the results of a search among the rows that the index gave.
pub fn search_results(rows: &Vec<String>, plan: &QueryPlan) -> (r: Vec<String>)
    ensures
        texts(r@) == results_of(texts(rows@), plan@),
{
    let ghost list = texts(rows@);
    let mut found: Vec<Candidate> = Vec::new();
    let mut i: usize = 0;
    assert(ranked(found@) =~= scored(list.take(0), plan@));
    while i < rows.len() && found.len() < MAX_CANDIDATES
        invariant
            i <= rows@.len(),
            list == texts(rows@),
            found@.len() <= MAX_CANDIDATES,
            ranked(found@) == scored(list.take(i as int), plan@),
        decreases rows@.len() - i,
    {
        assert(list.take(i + 1).drop_last() =~= list.take(i as int));
        assert(list.take(i + 1).last() == rows@[i as int]@);
        assert(ranked(found@).len() == found@.len());
        if path_matches_query(rows[i].as_str(), plan) {
            let ghost found0 = found@;
            let score = score_path(rows[i].as_str(), plan);
            found.push(Candidate { path: rows[i].clone(), score });
            assert(ranked(found@) =~= ranked(found0).push((rows@[i as int]@, score)));
        }
        i += 1;
    }
    proof {
        assert(ranked(found@).len() == found@.len());
        if i < rows.len() {
            lemma_scored_full(list, plan@, i as int);
        } else {
            assert(list.take(i as int) =~= list);
        }
    }
    let mut best = sort(found);
    let ghost order = scored(list, plan@).sort_by(by_rank());
    assert(ranked(best@).len() == best@.len());
    if best.len() > MAX_RESULTS {
        best.truncate(MAX_RESULTS);
    }
    assert(ranked(best@) =~= top(order));
    let mut r: Vec<String> = Vec::new();
    let mut k: usize = 0;
    while k < best.len()
        invariant
            k <= best@.len(),
            texts(r@) == ranked(best@).take(k as int).map_values(|c: Ranked| c.0),
        decreases best@.len() - k,
    {
        let ghost r0 = r@;
        r.push(best[k].path.clone());
        k += 1;
        assert(texts(r@) =~= texts(r0).push(best@[k - 1].path@));
        assert(texts(r@) =~= ranked(best@).take(k as int).map_values(|c: Ranked| c.0));
    }
    assert(ranked(best@).take(k as int) =~= ranked(best@));
    r
}

} // verus!
