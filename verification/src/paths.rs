//! Unix paths as `/`-separated components.

use crate::text::{subvec, same};
use vstd::prelude::*;

verus! {

/// The end of the path segment that starts at `from`: the next `/`, or the end of the path.
pub open spec fn segment_end(path: Seq<char>, from: int) -> int
    decreases path.len() - from,
{
    if from >= path.len() || path[from] == '/' {
        from
    } else {
        segment_end(path, from + 1)
    }
}

/// The segments of a path from `from` on that count as components, each with its start and end.
///
/// Empty segments do not count, and `.` counts only at the very start of a path.
pub open spec fn segments(path: Seq<char>, from: int) -> Seq<(int, int)>
    decreases path.len() - from,
{
    if from < 0 || from >= path.len() {
        seq![]
    } else if path[from] == '/' {
        segments(path, from + 1)
    } else {
        let end = segment_end(path, from);
        proof {
            lemma_segment_end(path, from);
        }
        if from > 0 && path.subrange(from, end) == seq!['.'] {
            segments(path, end)
        } else {
            seq![(from, end)] + segments(path, end)
        }
    }
}

/// The components of a path: its root, if it has one, and its segments.
pub open spec fn components(path: Seq<char>) -> Seq<(int, int)> {
    if path.len() > 0 && path[0] == '/' {
        seq![(0int, 1int)] + segments(path, 1)
    } else {
        segments(path, 0)
    }
}

/// The text of the component at position `i`.
pub open spec fn component(path: Seq<char>, i: int) -> Seq<char> {
    path.subrange(components(path)[i].0, components(path)[i].1)
}

/// The texts of all components.
pub open spec fn names(path: Seq<char>) -> Seq<Seq<char>> {
    Seq::new(components(path).len(), |i: int| component(path, i))
}

/// Two texts write the same path: their components are the same.
pub open spec fn same_path(a: Seq<char>, b: Seq<char>) -> bool {
    names(a) == names(b)
}

/// A component that names a file or a directory, unlike `/`, `.` and `..`.
pub open spec fn is_name(component: Seq<char>) -> bool {
    component != seq!['/'] && component != seq!['.'] && component != seq!['.', '.']
}

/// The last component of a path, if that is a name.
pub open spec fn file_name_of(path: Seq<char>) -> Option<Seq<char>> {
    let n = components(path).len();
    if n > 0 && is_name(component(path, n - 1)) {
        Some(component(path, n - 1))
    } else {
        None
    }
}

/// The path up to its last component, if it has one that is not the root.
pub open spec fn parent_of(path: Seq<char>) -> Option<Seq<char>> {
    let n = components(path).len();
    if n == 0 || component(path, n - 1) == seq!['/'] {
        None
    } else if n == 1 {
        Some(seq![])
    } else {
        Some(path.subrange(0, components(path)[n - 2].1))
    }
}

/// The components of `base` are the first components of `path`.
pub open spec fn is_under(path: Seq<char>, base: Seq<char>) -> bool {
    &&& components(base).len() <= components(path).len()
    &&& forall|i: int| #![trigger component(base, i)]
        0 <= i < components(base).len() ==> component(base, i) == component(path, i)
}

/// What is left of `path` behind `base`, if `path` lies under `base`.
pub open spec fn relative_to(path: Seq<char>, base: Seq<char>) -> Option<Seq<char>> {
    let k = components(base).len();
    let n = components(path).len();
    if !is_under(path, base) {
        None
    } else if n == k {
        Some(seq![])
    } else if k == 0 {
        Some(path.subrange(0, components(path)[n - 1].1))
    } else {
        Some(path.subrange(components(path)[k as int].0, components(path)[n - 1].1))
    }
}

/// `path` as seen from `base`: itself if it is absolute, else behind `base`.
pub open spec fn joined(base: Seq<char>, path: Seq<char>) -> Seq<char> {
    if path.len() > 0 && path[0] == '/' {
        path
    } else if base.len() > 0 && base.last() != '/' {
        base.push('/') + path
    } else {
        base + path
    }
}

/// Every component lies within the path, behind the one before it.
pub open spec fn well_placed(path: Seq<char>, from: int, spans: Seq<(int, int)>) -> bool {
    &&& forall|i: int| #![trigger spans[i]]
        0 <= i < spans.len() ==> from <= spans[i].0 < spans[i].1 <= path.len()
    &&& forall|i: int, j: int| #![trigger spans[i], spans[j]]
        0 <= i < j < spans.len() ==> spans[i].1 <= spans[j].0
}

/// A segment ends within the path.
pub proof fn lemma_segment_end(path: Seq<char>, from: int)
    requires
        0 <= from <= path.len(),
    ensures
        from <= segment_end(path, from) <= path.len(),
        from < path.len() && path[from] != '/' ==> from < segment_end(path, from),
    decreases path.len() - from,
{
    if from < path.len() && path[from] != '/' {
        lemma_segment_end(path, from + 1);
    }
}

proof fn lemma_segments(path: Seq<char>, from: int)
    requires
        0 <= from,
    ensures
        well_placed(path, from, segments(path, from)),
    decreases path.len() - from,
{
    if from < path.len() {
        if path[from] == '/' {
            lemma_segments(path, from + 1);
        } else {
            lemma_segment_end(path, from);
            lemma_segments(path, segment_end(path, from));
        }
    }
}

/// The components of a path lie within it, one behind the other.
pub proof fn lemma_components(path: Seq<char>)
    ensures
        well_placed(path, 0, components(path)),
{
    lemma_segments(path, 0);
    lemma_segments(path, 1);
}

/// Where a component starts and ends.
pub open spec fn span(s: (usize, usize)) -> (int, int) {
    (s.0 as int, s.1 as int)
}

/// Finds the components of a path.
pub fn split_components(path: &Vec<char>) -> (r: Vec<(usize, usize)>)
    ensures
        r@.map_values(|s: (usize, usize)| span(s)) == components(path@),
{
    let mut r: Vec<(usize, usize)> = Vec::new();
    let mut at: usize = 0;
    let ghost view = |s: (usize, usize)| span(s);
    if path.len() > 0 && path[0] == '/' {
        r.push((0, 1));
        at = 1;
        assert(r@.map_values(view) =~= seq![(0int, 1int)]);
    }
    assert(r@.map_values(view) + segments(path@, at as int) =~= components(path@));
    while at < path.len()
        invariant
            at <= path@.len(),
            view == (|s: (usize, usize)| span(s)),
            r@.map_values(view) + segments(path@, at as int) == components(path@),
        decreases path@.len() - at,
    {
        if path[at] == '/' {
            at += 1;
        } else {
            let mut end: usize = at;
            while end < path.len() && path[end] != '/'
                invariant
                    at <= end <= path@.len(),
                    segment_end(path@, at as int) == segment_end(path@, end as int),
                decreases path@.len() - end,
            {
                end += 1;
            }
            proof {
                lemma_segment_end(path@, at as int);
            }
            let ghost r0 = r@.map_values(view);
            let ghost rest = segments(path@, end as int);
            let dot = end - at == 1 && path[at] == '.';
            assert(dot <==> path@.subrange(at as int, end as int) == seq!['.']) by {
                if dot {
                    assert(path@.subrange(at as int, end as int) =~= seq!['.']);
                } else if path@.subrange(at as int, end as int) == seq!['.'] {
                    assert(path@.subrange(at as int, end as int).len() == 1);
                    assert(path@.subrange(at as int, end as int)[0] == '.');
                }
            }
            if at == 0 || !dot {
                r.push((at, end));
                assert(r@.map_values(view) =~= r0.push((at as int, end as int)));
                assert(r0 + (seq![(at as int, end as int)] + rest) =~= r0.push(
                    (at as int, end as int),
                ) + rest);
            }
            at = end;
        }
    }
    assert(r@.map_values(view) + segments(path@, at as int) =~= r@.map_values(view));
    r
}

/// The last component of a path, if that is a name.
pub fn file_name(path: &Vec<char>) -> (r: Option<Vec<char>>)
    ensures
        match r {
            Some(name) => file_name_of(path@) == Some(name@),
            None => file_name_of(path@) is None,
        },
{
    let parts = split_components(path);
    proof {
        lemma_components(path@);
    }
    if parts.len() == 0 {
        return None;
    }
    let (from, to) = parts[parts.len() - 1];
    assert(components(path@).last() == span(parts@.last()));
    let name = subvec(path, from, to);
    let root: Vec<char> = vec!['/'];
    let here: Vec<char> = vec!['.'];
    let above: Vec<char> = vec!['.', '.'];
    assert(root@ =~= seq!['/'] && here@ =~= seq!['.'] && above@ =~= seq!['.', '.']);
    if same(&name, &root) || same(&name, &here) || same(&name, &above) {
        None
    } else {
        Some(name)
    }
}

/// The path up to its last component, if it has one that is not the root.
pub fn parent(path: &Vec<char>) -> (r: Option<Vec<char>>)
    ensures
        match r {
            Some(dir) => parent_of(path@) == Some(dir@),
            None => parent_of(path@) is None,
        },
{
    let parts = split_components(path);
    proof {
        lemma_components(path@);
    }
    if parts.len() == 0 {
        return None;
    }
    let (from, to) = parts[parts.len() - 1];
    assert(components(path@).last() == span(parts@.last()));
    let root: Vec<char> = vec!['/'];
    assert(root@ =~= seq!['/']);
    if same(&subvec(path, from, to), &root) {
        None
    } else if parts.len() == 1 {
        Some(Vec::new())
    } else {
        let (_, end) = parts[parts.len() - 2];
        assert(components(path@)[parts@.len() - 2] == span(parts@[parts@.len() - 2]));
        Some(subvec(path, 0, end))
    }
}

/// Tells whether two texts write the same path.
pub fn is_same_path(a: &Vec<char>, b: &Vec<char>) -> (r: bool)
    ensures
        r == same_path(a@, b@),
{
    let left = split_components(a);
    let right = split_components(b);
    proof {
        lemma_components(a@);
        lemma_components(b@);
        assert(names(a@).len() == left@.len());
        assert(names(b@).len() == right@.len());
    }
    if left.len() != right.len() {
        return false;
    }
    let mut i: usize = 0;
    while i < left.len()
        invariant
            i <= left@.len() == right@.len(),
            left@.map_values(|s: (usize, usize)| span(s)) == components(a@),
            right@.map_values(|s: (usize, usize)| span(s)) == components(b@),
            well_placed(a@, 0, components(a@)),
            well_placed(b@, 0, components(b@)),
            forall|k: int| #![trigger names(a@)[k]] 0 <= k < i ==> names(a@)[k] == names(b@)[k],
        decreases left@.len() - i,
    {
        let (from, to) = left[i];
        let (other_from, other_to) = right[i];
        assert(components(a@)[i as int] == span(left@[i as int]));
        assert(components(b@)[i as int] == span(right@[i as int]));
        if !same(&subvec(a, from, to), &subvec(b, other_from, other_to)) {
            assert(names(a@)[i as int] != names(b@)[i as int]);
            return false;
        }
        i += 1;
    }
    assert(names(a@) =~= names(b@));
    true
}

/// What is left of `path` behind `base`, if `path` lies under `base`.
pub fn strip_prefix(path: &Vec<char>, base: &Vec<char>) -> (r: Option<Vec<char>>)
    ensures
        match r {
            Some(rest) => relative_to(path@, base@) == Some(rest@),
            None => relative_to(path@, base@) is None,
        },
{
    let parts = split_components(path);
    let heads = split_components(base);
    proof {
        lemma_components(path@);
        lemma_components(base@);
    }
    if heads.len() > parts.len() {
        return None;
    }
    let mut i: usize = 0;
    while i < heads.len()
        invariant
            i <= heads@.len() <= parts@.len(),
            parts@.map_values(|s: (usize, usize)| span(s)) == components(path@),
            heads@.map_values(|s: (usize, usize)| span(s)) == components(base@),
            well_placed(path@, 0, components(path@)),
            well_placed(base@, 0, components(base@)),
            forall|k: int| #![trigger component(base@, k)]
                0 <= k < i ==> component(base@, k) == component(path@, k),
        decreases heads@.len() - i,
    {
        let (from, to) = parts[i];
        let (head_from, head_to) = heads[i];
        assert(components(path@)[i as int] == span(parts@[i as int]));
        assert(components(base@)[i as int] == span(heads@[i as int]));
        if !same(&subvec(path, from, to), &subvec(base, head_from, head_to)) {
            assert(component(base@, i as int) != component(path@, i as int));
            return None;
        }
        i += 1;
    }
    if parts.len() == heads.len() {
        return Some(Vec::new());
    }
    let (_, end) = parts[parts.len() - 1];
    assert(components(path@).last() == span(parts@.last()));
    if heads.len() == 0 {
        Some(subvec(path, 0, end))
    } else {
        let (start, _) = parts[heads.len()];
        assert(components(path@)[heads@.len() as int] == span(parts@[heads@.len() as int]));
        Some(subvec(path, start, end))
    }
}

/// Puts `path` behind `base`, or gives it back if it is absolute.
pub fn join(base: &Vec<char>, path: &Vec<char>) -> (r: Vec<char>)
    ensures
        r@ == joined(base@, path@),
{
    if path.len() > 0 && path[0] == '/' {
        return subvec(path, 0, path.len());
    }
    let mut r = subvec(base, 0, base.len());
    if base.len() > 0 && base[base.len() - 1] != '/' {
        r.push('/');
    }
    let mut i: usize = 0;
    let ghost r0 = r@;
    while i < path.len()
        invariant
            i <= path@.len(),
            r@ == r0 + path@.take(i as int),
        decreases path@.len() - i,
    {
        r.push(path[i]);
        i += 1;
    }
    assert(path@.take(i as int) =~= path@);
    r
}

} // verus!
