//! What holds of every path: its components, its file name, its parent, and what lies below it.

use crate::paths::{
    component, components, file_name_of, is_name, is_under, joined, lemma_components,
    lemma_segment_end, names, parent_of, relative_to, same_path, segment_end, segments,
};
use crate::query::basename;
use crate::text::lower;
use vstd::prelude::*;

verus! {

/// A text that can stand between two `/`.
pub open spec fn is_segment(name: Seq<char>) -> bool {
    name.len() > 0 && !name.contains('/')
}

/// A path in a directory: the directory, a `/`, and more.
pub open spec fn within(dir: Seq<char>, more: Seq<char>) -> Seq<char> {
    dir + seq!['/'] + more
}

/// A path ends in a component: neither in `/` nor in `/.`.
pub open spec fn ends_clean(path: Seq<char>) -> bool {
    &&& path.len() > 0
    &&& path.last() != '/'
    &&& !seq!['/', '.'].is_suffix_of(path)
}

proof fn lemma_end_in_front(dir: Seq<char>, more: Seq<char>, from: int)
    requires
        0 <= from <= dir.len(),
    ensures
        segment_end(within(dir, more), from) == segment_end(dir, from),
    decreases dir.len() - from,
{
    let p = within(dir, more);
    if from < dir.len() {
        assert(p[from] == dir[from]);
        if dir[from] != '/' {
            lemma_end_in_front(dir, more, from + 1);
        }
    } else {
        assert(p[from] == '/');
    }
}

proof fn lemma_segments_in_front(dir: Seq<char>, more: Seq<char>, from: int)
    requires
        0 <= from <= dir.len(),
    ensures
        segments(within(dir, more), from) == segments(dir, from) + segments(
            within(dir, more),
            dir.len() as int + 1,
        ),
    decreases dir.len() - from,
{
    let p = within(dir, more);
    let rest = segments(p, dir.len() as int + 1);
    if from == dir.len() {
        assert(p[from] == '/');
        assert(segments(dir, from) + rest =~= rest);
    } else {
        assert(p[from] == dir[from]);
        if dir[from] == '/' {
            lemma_segments_in_front(dir, more, from + 1);
        } else {
            lemma_end_in_front(dir, more, from);
            lemma_segment_end(dir, from);
            let end = segment_end(dir, from);
            assert(p.subrange(from, end) =~= dir.subrange(from, end));
            lemma_segments_in_front(dir, more, end);
            assert(segments(p, from) =~= segments(dir, from) + rest);
        }
    }
}

proof fn lemma_last_end(p: Seq<char>, from: int)
    requires
        0 <= from <= p.len(),
        forall|i: int| #![trigger p[i]] from <= i < p.len() ==> p[i] != '/',
    ensures
        segment_end(p, from) == p.len(),
    decreases p.len() - from,
{
    if from < p.len() {
        lemma_last_end(p, from + 1);
    }
}

proof fn lemma_segments_behind(p: Seq<char>, from: int)
    requires
        0 <= from < p.len(),
        forall|i: int| #![trigger p[i]] from <= i < p.len() ==> p[i] != '/',
    ensures
        segments(p, from) == (if from > 0 && p.skip(from) == seq!['.'] {
            seq![]
        } else {
            seq![(from, p.len() as int)]
        }),
{
    lemma_last_end(p, from);
    assert(p.subrange(from, p.len() as int) =~= p.skip(from));
    assert(p[from] != '/');
    assert(segments(p, p.len() as int) =~= seq![]);
    assert(seq![(from, p.len() as int)] + seq![] =~= seq![(from, p.len() as int)]);
}

proof fn lemma_tail(dir: Seq<char>, name: Seq<char>)
    requires
        is_segment(name),
    ensures
        segments(within(dir, name), dir.len() as int + 1) == (if name == seq!['.'] {
            seq![]
        } else {
            seq![(dir.len() as int + 1, within(dir, name).len() as int)]
        }),
{
    let p = within(dir, name);
    let from = dir.len() as int + 1;
    assert forall|i: int| #![trigger p[i]] from <= i < p.len() implies p[i] != '/' by {
        assert(p[i] == name[i - from]);
        assert(name.contains(name[i - from]));
    }
    lemma_segments_behind(p, from);
    assert(p.skip(from) =~= name);
}

/// The components of a path in a directory are those of the directory and one more.
proof fn lemma_one_more(dir: Seq<char>, name: Seq<char>)
    requires
        dir.len() > 0,
        is_segment(name),
    ensures
        components(within(dir, name)) == (if name == seq!['.'] {
            components(dir)
        } else {
            components(dir).push((dir.len() as int + 1, within(dir, name).len() as int))
        }),
{
    let p = within(dir, name);
    assert(p[0] == dir[0]);
    lemma_tail(dir, name);
    lemma_segments_in_front(dir, name, 0);
    lemma_segments_in_front(dir, name, 1);
    assert(components(p) =~= if name == seq!['.'] {
        components(dir)
    } else {
        components(dir).push((dir.len() as int + 1, p.len() as int))
    });
}

proof fn lemma_no_more(dir: Seq<char>)
    requires
        dir.len() > 0,
    ensures
        components(dir.push('/')) == components(dir),
{
    let p = dir.push('/');
    assert(p =~= within(dir, seq![]));
    assert(p[0] == dir[0]);
    lemma_segments_in_front(dir, seq![], 0);
    lemma_segments_in_front(dir, seq![], 1);
    assert(segments(p, dir.len() as int + 1) =~= seq![]);
    assert(components(p) =~= components(dir));
}

proof fn lemma_from_root(name: Seq<char>)
    requires
        is_segment(name),
    ensures
        components(within(seq![], name)) == (if name == seq!['.'] {
            seq![(0int, 1int)]
        } else {
            seq![(0int, 1int), (1int, name.len() as int + 1)]
        }),
{
    let p = within(seq![], name);
    assert(p[0] == '/');
    lemma_tail(seq![], name);
    assert(components(p) =~= if name == seq!['.'] {
        seq![(0int, 1int)]
    } else {
        seq![(0int, 1int), (1int, name.len() as int + 1)]
    });
}

proof fn lemma_alone(name: Seq<char>)
    requires
        is_segment(name),
    ensures
        components(name) == seq![(0int, name.len() as int)],
{
    assert forall|i: int| #![trigger name[i]] 0 <= i < name.len() implies name[i] != '/' by {
        assert(name.contains(name[i]));
    }
    lemma_segments_behind(name, 0);
}

proof fn lemma_shared(p: Seq<char>, q: Seq<char>, i: int)
    requires
        0 <= i < components(p).len(),
        i < components(q).len(),
        components(p)[i] == components(q)[i],
        p.len() <= q.len(),
        q.take(p.len() as int) == p,
    ensures
        component(p, i) == component(q, i),
{
    lemma_components(p);
    let (a, b) = components(p)[i];
    assert(p.subrange(a, b) =~= q.subrange(a, b)) by {
        assert forall|k: int| a <= k < b implies p[k] == q[k] by {
            assert(q.take(p.len() as int)[k] == p[k]);
        }
    }
}

/// A path in a directory has the names of the directory, and then its own; `.` is no name, but
/// at the start of a path; and a `/` at the end names nothing.
pub proof fn names_stand_one_behind_the_other(dir: Seq<char>, name: Seq<char>)
    requires
        is_segment(name),
    ensures
        names(seq![]) == Seq::<Seq<char>>::empty(),
        names(seq!['/']) == seq![seq!['/']],
        names(name) == seq![name],
        dir.len() > 0 && name != seq!['.'] ==> names(within(dir, name)) == names(dir).push(name),
        dir.len() > 0 ==> names(within(dir, seq!['.'])) == names(dir),
        dir.len() > 0 ==> names(dir.push('/')) == names(dir),
        name != seq!['.'] ==> names(within(seq![], name)) == seq![seq!['/'], name],
{
    assert(names(seq![]) =~= seq![]);
    lemma_alone(name);
    assert(component(name, 0) =~= name);
    assert(names(name) =~= seq![name]);
    let root = seq!['/'];
    assert(segments(root, 1) =~= seq![]);
    assert(components(root) =~= seq![(0int, 1int)]);
    assert(component(root, 0) =~= root);
    assert(names(root) =~= seq![root]);
    let dot = seq!['.'];
    assert(!dot.contains('/'));
    if dir.len() > 0 {
        let p = within(dir, name);
        assert(p.take(dir.len() as int) =~= dir);
        lemma_one_more(dir, name);
        if name != dot {
            assert forall|i: int| 0 <= i < names(dir).len() implies names(p)[i]
                == names(dir)[i] by {
                lemma_shared(dir, p, i);
            }
            assert(component(p, components(dir).len() as int) =~= name);
            assert(names(p) =~= names(dir).push(name));
        }
        let q = within(dir, dot);
        assert(q.take(dir.len() as int) =~= dir);
        lemma_one_more(dir, dot);
        assert forall|i: int| 0 <= i < names(dir).len() implies names(q)[i] == names(dir)[i] by {
            lemma_shared(dir, q, i);
        }
        assert(names(q) =~= names(dir));
        let r = dir.push('/');
        assert(r.take(dir.len() as int) =~= dir);
        lemma_no_more(dir);
        assert forall|i: int| 0 <= i < names(dir).len() implies names(r)[i] == names(dir)[i] by {
            lemma_shared(dir, r, i);
        }
        assert(names(r) =~= names(dir));
    }
    if name != dot {
        let p = within(seq![], name);
        lemma_from_root(name);
        assert(component(p, 0) =~= root);
        assert(component(p, 1) =~= name);
        assert(names(p) =~= seq![root, name]);
    }
}

/// Two texts write the same path exactly if they have the same names in the same order. So a `/`
/// or a `/.` at the end does not matter, and two paths in directories are the same if the
/// directories are and the last names are.
pub proof fn the_same_path_has_the_same_names(
    a: Seq<char>,
    b: Seq<char>,
    x: Seq<char>,
    y: Seq<char>,
)
    requires
        a.len() > 0,
        b.len() > 0,
        is_segment(x),
        is_segment(y),
        x != seq!['.'],
        y != seq!['.'],
    ensures
        same_path(a, b) <==> names(a) == names(b),
        same_path(a, a.push('/')),
        same_path(a, within(a, seq!['.'])),
        same_path(within(a, x), within(b, y)) <==> same_path(a, b) && x == y,
{
    names_stand_one_behind_the_other(a, x);
    names_stand_one_behind_the_other(b, y);
    if same_path(within(a, x), within(b, y)) {
        assert(names(a).push(x).last() == names(b).push(y).last());
        assert(names(a).push(x).drop_last() =~= names(a));
        assert(names(b).push(y).drop_last() =~= names(b));
    }
}

/// The file name of a path in a directory is what stands behind the last `/`, unless that is
/// `..`; a `/` or a `/.` at the end does not matter; and neither the root nor an empty path has
/// one.
pub proof fn the_last_name_is_the_file_name(dir: Seq<char>, name: Seq<char>)
    requires
        is_segment(name),
        name != seq!['.'],
    ensures
        file_name_of(within(dir, name)) == (if name == seq!['.', '.'] {
            None
        } else {
            Some(name)
        }),
        file_name_of(name) == (if name == seq!['.', '.'] {
            None
        } else {
            Some(name)
        }),
        dir.len() > 0 ==> file_name_of(dir.push('/')) == file_name_of(dir),
        dir.len() > 0 ==> file_name_of(within(dir, seq!['.'])) == file_name_of(dir),
        file_name_of(seq!['/']) is None,
        file_name_of(seq![]) is None,
{
    names_stand_one_behind_the_other(dir, name);
    lemma_file_name(seq!['/']);
    lemma_file_name(seq![]);
    lemma_file_name(name);
    lemma_file_name(within(dir, name));
    lemma_file_name(dir);
    lemma_file_name(dir.push('/'));
    lemma_file_name(within(dir, seq!['.']));
    assert(name != seq!['/']) by {
        assert(seq!['/'].contains(seq!['/'][0]));
    }
    assert(within(dir, name).len() > 0);
    if dir.len() == 0 {
        assert(dir =~= seq![]);
    }
}

proof fn lemma_file_name(path: Seq<char>)
    ensures
        file_name_of(path) == (if names(path).len() > 0 && is_name(names(path).last()) {
            Some(names(path).last())
        } else {
            None
        }),
{
}

/// A query compares with the file name in lower case, whatever the path; one without a file name
/// has an empty one.
pub proof fn base_names_are_in_lower_case(path: Seq<char>)
    ensures
        basename(path) == (match file_name_of(path) {
            Some(name) => lower(name),
            None => Seq::<char>::empty(),
        }),
{
    assert(lower(seq![]) =~= seq![]);
}

/// A query compares with what stands behind the last `/`, in lower case.
pub proof fn base_names_are_file_names(dir: Seq<char>, name: Seq<char>)
    requires
        is_segment(name),
        name != seq!['.'],
        name != seq!['.', '.'],
    ensures
        basename(within(dir, name)) == lower(name),
        basename(name) == lower(name),
        basename(seq![]) == Seq::<char>::empty(),
        basename(seq!['/']) == Seq::<char>::empty(),
        basename(within(dir, seq!['.', '.'])) == Seq::<char>::empty(),
{
    the_last_name_is_the_file_name(dir, name);
    let up = seq!['.', '.'];
    assert(up[0] == '.' && up[1] == '.');
    assert(!up.contains('/'));
    assert(up != seq!['.']) by {
        assert(up.len() == 2);
    }
    the_last_name_is_the_file_name(dir, up);
    assert(lower(seq![]) =~= seq![]);
}

proof fn lemma_last_slash(s: Seq<char>) -> (k: int)
    ensures
        -1 <= k < s.len(),
        k >= 0 ==> s[k] == '/',
        forall|i: int| #![trigger s[i]] k < i < s.len() ==> s[i] != '/',
    decreases s.len(),
{
    if s.len() == 0 {
        -1
    } else if s.last() == '/' {
        s.len() - 1
    } else {
        let k = lemma_last_slash(s.drop_last());
        assert forall|i: int| #![trigger s[i]] k < i < s.len() implies s[i] != '/' by {
            if i < s.len() - 1 {
                assert(s.drop_last()[i] == s[i]);
            }
        }
        assert(k >= 0 ==> s.drop_last()[k] == s[k]);
        k
    }
}

/// The last component of a path that ends in one ends with the path.
proof fn lemma_clean(path: Seq<char>)
    requires
        ends_clean(path),
    ensures
        components(path).len() > 0,
        components(path).last().1 == path.len(),
{
    let k = lemma_last_slash(path);
    let name = path.skip(k + 1);
    assert(!name.contains('/')) by {
        if name.contains('/') {
            let i = choose|i: int| 0 <= i < name.len() && name[i] == '/';
            assert(path[k + 1 + i] == '/');
        }
    }
    if k < 0 {
        assert(name =~= path);
        lemma_alone(path);
    } else {
        let dir = path.take(k);
        assert(path =~= within(dir, name));
        if name == seq!['.'] {
            assert(path.subrange(path.len() - 2, path.len() as int) =~= seq!['/', '.']);
            assert(seq!['/', '.'].is_suffix_of(path));
        }
        if dir.len() > 0 {
            lemma_one_more(dir, name);
        } else {
            assert(dir =~= seq![]);
            lemma_from_root(name);
        }
    }
}

/// The parent of a path in a directory is the directory; that of a path from the root is the
/// root; that of a name alone is the empty path; and the root has none.
pub proof fn the_parent_is_the_directory(dir: Seq<char>, name: Seq<char>)
    requires
        is_segment(name),
        name != seq!['.'],
        ends_clean(dir),
    ensures
        parent_of(within(dir, name)) == Some(dir),
        parent_of(within(seq![], name)) == Some(seq!['/']),
        parent_of(name) == Some(Seq::<char>::empty()),
        parent_of(within(dir, name).push('/')) == Some(dir),
        parent_of(seq!['/']) is None,
        parent_of(seq![]) is None,
{
    let p = within(dir, name);
    lemma_clean(dir);
    lemma_one_more(dir, name);
    assert(name != seq!['/']) by {
        assert(seq!['/'].contains(seq!['/'][0]));
    }
    assert(component(p, components(dir).len() as int) =~= name);
    assert(p.subrange(0, dir.len() as int) =~= dir);
    let q = p.push('/');
    lemma_no_more(p);
    assert(component(q, components(dir).len() as int) =~= name);
    assert(q.subrange(0, dir.len() as int) =~= dir);
    let r = within(seq![], name);
    lemma_from_root(name);
    assert(component(r, 1) =~= name);
    assert(r.subrange(0, 1) =~= seq!['/']);
    lemma_alone(name);
    assert(component(name, 0) =~= name);
    let root = seq!['/'];
    assert(segments(root, 1) =~= seq![]);
    assert(components(root) =~= seq![(0int, 1int)]);
    assert(component(root, 0) =~= root);
}

/// A `/` more between a directory and a name does not matter to the parent, and nor does a `/` or a
/// `/.` at the end of a path.
pub proof fn parents_see_through_slashes(path: Seq<char>, name: Seq<char>)
    requires
        path.len() > 0,
        is_segment(name),
        name != seq!['.'],
    ensures
        parent_of(path.push('/')) == parent_of(path),
        parent_of(within(path, seq!['.'])) == parent_of(path),
        parent_of(within(path.push('/'), name)) == parent_of(within(path, name)),
{
    let n = components(path).len() as int;
    lemma_nonempty(path);
    lemma_components(path);
    let a = path.push('/');
    lemma_no_more(path);
    assert(a.take(path.len() as int) =~= path);
    lemma_shared(path, a, n - 1);
    let b = within(path, seq!['.']);
    assert(!seq!['.'].contains('/'));
    lemma_one_more(path, seq!['.']);
    assert(b.take(path.len() as int) =~= path);
    lemma_shared(path, b, n - 1);
    if n > 1 {
        let e = components(path)[n - 2].1;
        assert(a.subrange(0, e) =~= path.subrange(0, e));
        assert(b.subrange(0, e) =~= path.subrange(0, e));
    }
    let c = within(path, name);
    let d = within(a, name);
    lemma_one_more(path, name);
    lemma_one_more(a, name);
    assert(component(c, n) =~= name);
    assert(component(d, n) =~= name);
    let e = components(path)[n - 1].1;
    assert(c.subrange(0, e) =~= d.subrange(0, e));
}

/// How a base is written does not matter to what is left of a path behind it.
pub proof fn bases_can_be_written_otherwise(path: Seq<char>, base: Seq<char>, other: Seq<char>)
    requires
        same_path(base, other),
    ensures
        relative_to(path, base) == relative_to(path, other),
        relative_to(path, path) == Some(Seq::<char>::empty()),
{
    assert(names(base).len() == names(other).len());
    under_is_by_names(path, base);
    under_is_by_names(path, other);
    under_is_by_names(path, path);
}

/// A path lies under another exactly if it starts with all the names of that one.
pub proof fn under_is_by_names(path: Seq<char>, base: Seq<char>)
    ensures
        is_under(path, base) <==> names(base).is_prefix_of(names(path)),
        relative_to(path, base) is Some <==> names(base).is_prefix_of(names(path)),
        relative_to(path, path) == Some(Seq::<char>::empty()),
{
    if is_under(path, base) {
        assert forall|i: int| 0 <= i < names(base).len() implies names(base)[i]
            == names(path)[i] by {
            assert(component(base, i) == component(path, i));
        }
        assert(names(base) =~= names(path).subrange(0, names(base).len() as int));
    }
    if names(base).is_prefix_of(names(path)) {
        assert forall|i: int| #![trigger component(base, i)]
            0 <= i < components(base).len() implies component(base, i) == component(path, i) by {
            assert(names(base)[i] == names(path).subrange(0, names(base).len() as int)[i]);
        }
    }
}

/// What is left of a path in a directory, as seen from the directory, is the path's own name; as
/// seen from further up, it is what is left of the directory, a `/`, and that name.
pub proof fn what_is_left_is_behind_the_base(dir: Seq<char>, name: Seq<char>, base: Seq<char>)
    requires
        is_segment(name),
        name != seq!['.'],
        dir.len() > 0,
    ensures
        relative_to(within(dir, name), dir) == Some(name),
        ends_clean(dir) ==> match relative_to(dir, base) {
            Some(rest) if rest.len() > 0 => relative_to(within(dir, name), base) == Some(
                within(rest, name),
            ),
            _ => true,
        },
        ends_clean(dir) ==> relative_to(dir, seq![]) == Some(dir),
{
    let p = within(dir, name);
    let n = components(dir).len() as int;
    lemma_one_more(dir, name);
    lemma_components(dir);
    assert(p.take(dir.len() as int) =~= dir);
    assert forall|i: int| 0 <= i < n implies #[trigger] component(dir, i) == component(p, i) by {
        lemma_shared(dir, p, i);
    }
    assert(is_under(p, dir));
    assert(p.subrange(dir.len() as int + 1, p.len() as int) =~= name);
    if n == 0 {
        lemma_nonempty(dir);
    }
    if ends_clean(dir) {
        lemma_clean(dir);
        let none = Seq::<char>::empty();
        assert(components(none) =~= seq![]);
        assert(dir.subrange(0, dir.len() as int) =~= dir);
        let k = components(base).len() as int;
        if relative_to(dir, base) is Some && (relative_to(dir, base)->0).len() > 0 {
            let rest = relative_to(dir, base)->0;
            assert(is_under(p, base)) by {
                assert forall|i: int| #![trigger component(base, i)] 0 <= i < k implies component(
                    base,
                    i,
                ) == component(p, i) by {
                    assert(component(base, i) == component(dir, i));
                    assert(component(dir, i) == component(p, i));
                }
            }
            if k == n {
                assert(rest.len() == 0);
            } else if k == 0 {
                assert(rest =~= dir);
                assert(p.subrange(0, p.len() as int) =~= within(rest, name));
            } else {
                let c = components(dir)[k].0;
                assert(rest =~= dir.subrange(c, dir.len() as int));
                assert(components(p)[k] == components(dir)[k]);
                assert(p.subrange(c, p.len() as int) =~= within(rest, name));
            }
        }
    }
}

proof fn lemma_nonempty(path: Seq<char>)
    requires
        path.len() > 0,
    ensures
        components(path).len() > 0,
{
    if path[0] != '/' {
        lemma_segment_end(path, 0);
        assert(segments(path, 0).len() > 0);
    }
}

/// A relative path is put behind the directory that it is seen from, with one `/` between them;
/// an absolute path stays as it is.
pub proof fn joining_puts_a_slash_between(dir: Seq<char>, path: Seq<char>)
    requires
        dir.len() > 0,
        dir.last() != '/',
        path.len() == 0 || path[0] != '/',
    ensures
        joined(dir, within(seq![], path)) == within(seq![], path),
        joined(dir, path) == within(dir, path),
        joined(dir.push('/'), path) == within(dir, path),
        joined(seq![], path) == path,
{
    assert(within(seq![], path)[0] == '/');
    assert(joined(dir, path) =~= within(dir, path));
    assert(joined(dir.push('/'), path) =~= within(dir, path));
    assert(joined(seq![], path) =~= path);
}

} // verus!
