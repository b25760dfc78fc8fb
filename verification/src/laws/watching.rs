//! What holds of the index while the file system is watched.

use crate::text::{strip_back, CharClass};
use crate::watcher::ignore::ignored;
use crate::watcher::pending::PendingView;
use crate::watcher::sync::{heeded, indexings, insertions, lemma_heeded, removals, ActionView};
use vstd::prelude::*;

verus! {

/// What stands in the file system.
pub struct Disk {
    /// Every path at which something stands.
    pub present: Set<Seq<char>>,
    /// The paths at which files stand.
    pub files: Set<Seq<char>>,
    /// The files that looking through a directory brings.
    pub found: spec_fn(Seq<char>) -> Set<Seq<char>>,
}

/// A path lies below a directory, which may be written with `/` at its end.
pub open spec fn lies_below(path: Seq<char>, dir: Seq<char>) -> bool {
    (strip_back(dir, CharClass::Only('/')) + seq!['/']).is_prefix_of(path)
}

/// The index once an action is done.
pub open spec fn done(index: Set<Seq<char>>, action: ActionView, disk: Disk) -> Set<Seq<char>> {
    match action {
        ActionView::RemoveFile(p) => index.remove(p),
        ActionView::RemoveUnder(p) => index.filter(|q: Seq<char>| !lies_below(q, p)),
        ActionView::InsertIfFile(p) => if disk.files.contains(p) {
            index.insert(p)
        } else {
            index
        },
        ActionView::Index(p) => index.union((disk.found)(p)),
        ActionView::Prune => index.intersect(disk.present),
        ActionView::Watch(_) => index,
    }
}

/// The index once all actions are done, one after the other.
pub open spec fn all_done(
    index: Set<Seq<char>>,
    actions: Seq<ActionView>,
    disk: Disk,
) -> Set<Seq<char>>
    decreases actions.len(),
{
    if actions.len() == 0 {
        index
    } else {
        done(all_done(index, actions.drop_last(), disk), actions.last(), disk)
    }
}

proof fn lemma_in_turn(index: Set<Seq<char>>, a: Seq<ActionView>, b: Seq<ActionView>, disk: Disk)
    ensures
        all_done(index, a + b, disk) == all_done(all_done(index, a, disk), b, disk),
    decreases b.len(),
{
    if b.len() == 0 {
        assert(a + b =~= a);
    } else {
        lemma_in_turn(index, a, b.drop_last(), disk);
        assert((a + b).drop_last() =~= a + b.drop_last());
    }
}

/// Writing changes leaves nothing in the index that is not there any more.
pub proof fn writing_leaves_what_is_there(
    index: Set<Seq<char>>,
    pending: PendingView,
    roots: Seq<Seq<char>>,
    patterns: Seq<Seq<char>>,
    disk: Disk,
)
    ensures
        all_done(index, pending.written(roots, patterns), disk).subset_of(disk.present),
{
    let all = pending.written(roots, patterns);
    assert(all.last() == ActionView::Prune);
}

proof fn lemma_inserted(index: Set<Seq<char>>, paths: Seq<Seq<char>>, disk: Disk, p: Seq<char>)
    requires
        index.contains(p) || (paths.contains(p) && disk.files.contains(p)),
    ensures
        all_done(index, insertions(paths), disk).contains(p),
    decreases paths.len(),
{
    if paths.len() > 0 {
        let first = paths.drop_last();
        assert(insertions(paths).drop_last() =~= insertions(first));
        if index.contains(p) || first.contains(p) {
            lemma_inserted(index, first, disk, p);
        } else {
            let i = choose|i: int| 0 <= i < paths.len() && paths[i] == p;
            if i < first.len() {
                assert(first[i] == p);
            }
        }
    }
}

proof fn lemma_indexed(index: Set<Seq<char>>, paths: Seq<Seq<char>>, disk: Disk, p: Seq<char>)
    requires
        index.contains(p),
    ensures
        all_done(index, indexings(paths), disk).contains(p),
    decreases paths.len(),
{
    if paths.len() > 0 {
        assert(indexings(paths).drop_last() =~= indexings(paths.drop_last()));
        lemma_indexed(index, paths.drop_last(), disk, p);
    }
}

/// Writing changes leaves every changed file in the index that is there and is not left out,
/// also one that was gone for a while.
pub proof fn writing_adds_what_changed(
    index: Set<Seq<char>>,
    pending: PendingView,
    roots: Seq<Seq<char>>,
    patterns: Seq<Seq<char>>,
    disk: Disk,
    p: Seq<char>,
)
    requires
        disk.files.subset_of(disk.present),
        pending.changed.contains(p),
        !ignored(p, roots, patterns),
        disk.files.contains(p),
    ensures
        all_done(index, pending.written(roots, patterns), disk).contains(p),
{
    let gone = removals(pending.removed);
    let h1 = heeded(pending.changed, roots, patterns);
    let h2 = heeded(pending.roots, roots, patterns);
    lemma_heeded(pending.changed, roots, patterns, p);
    let a = all_done(index, gone, disk);
    let b = all_done(a, insertions(h1), disk);
    let c = all_done(b, indexings(h2), disk);
    lemma_in_turn(index, gone, insertions(h1), disk);
    lemma_in_turn(index, gone + insertions(h1), indexings(h2), disk);
    let all = pending.written(roots, patterns);
    assert(all.drop_last() =~= gone + insertions(h1) + indexings(h2));
    lemma_inserted(a, h1, disk, p);
    lemma_indexed(b, h2, disk, p);
}

} // verus!
