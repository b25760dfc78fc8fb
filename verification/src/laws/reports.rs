//! What holds of every report of a change, and of what is written to the index for it.

use crate::paths::same_path;
use crate::watcher::ignore::ignored;
use crate::watcher::pending::{
    a_gone_path_is_removed, a_path_that_is_there_is_changed, holds, lemma_with, lemma_without,
    other_paths_stay, without_path, EventKind, EventPathView, PendingView,
};
use crate::watcher::sync::{
    heeded, indexings, insertions, removals, ActionView, ReceivedView, WatchView,
};
use vstd::prelude::*;

verus! {

/// The paths of an event count one after the other, and every one of them counts: reporting two
/// lists of paths at once is reporting the first list and then the second.
pub proof fn every_path_counts_in_turn(
    pending: PendingView,
    kind: EventKind,
    a: Seq<EventPathView>,
    b: Seq<EventPathView>,
    p: EventPathView,
)
    ensures
        pending.noted_all(kind, a + b) == pending.noted_all(kind, a).noted_all(kind, b),
        pending.noted_all(kind, seq![p]) == pending.noted(kind, p),
        pending.noted_all(kind, seq![]) == pending,
    decreases b.len(),
{
    if b.len() == 0 {
        assert(a + b =~= a);
    } else {
        every_path_counts_in_turn(pending, kind, a, b.drop_last(), p);
        assert((a + b).drop_last() =~= a + b.drop_last());
        assert((a + b).last() == b.last());
    }
    assert(seq![p].drop_last() =~= seq![]);
    assert(pending.noted_all(kind, seq![]) == pending);
}

/// A path is reported as gone: it was removed, or it was made or modified and nothing stands
/// there.
pub open spec fn is_gone(kind: EventKind, p: EventPathView) -> bool {
    kind == EventKind::Remove || ((kind == EventKind::Create || kind == EventKind::Modify)
        && !p.exists)
}

/// A path is reported as being there.
pub open spec fn is_there(kind: EventKind, p: EventPathView) -> bool {
    kind != EventKind::Remove && p.exists
}

proof fn lemma_noted_list(
    pending: PendingView,
    kind: EventKind,
    paths: Seq<EventPathView>,
    i: int,
)
    requires
        0 <= i < paths.len(),
    ensures
        is_gone(kind, paths[i]) ==> holds(pending.noted_all(kind, paths).removed, paths[i].path),
        is_there(kind, paths[i]) && (forall|j: int| #![trigger paths[j]]
            i < j < paths.len() ==> !is_gone(kind, paths[j]) || !same_path(
                paths[j].path,
                paths[i].path,
            )) ==> holds(pending.noted_all(kind, paths).changed, paths[i].path),
        is_there(kind, paths[i]) && paths[i].is_dir && (kind == EventKind::Create || kind
            == EventKind::Modify) ==> holds(
            pending.noted_all(kind, paths).roots,
            paths[i].path,
        ),
    decreases paths.len(),
{
    let first = paths.drop_last();
    let before = pending.noted_all(kind, first);
    let last = paths.last();
    if i < first.len() {
        lemma_noted_list(pending, kind, first, i);
        assert forall|j: int| #![trigger first[j]] 0 <= j < first.len() implies first[j]
            == paths[j] by {}
        other_paths_stay(before, kind, last, paths[i].path);
        assert(paths[paths.len() - 1] == last);
        if !is_gone(kind, last) {
            lemma_with(before.changed, last.path);
        }
    } else {
        assert(paths[i] == last);
        if is_gone(kind, last) {
            a_gone_path_is_removed(before, kind, last);
        } else if is_there(kind, last) {
            a_path_that_is_there_is_changed(before, kind, last);
        }
    }
}

/// Every path of an event is noted, not only the first: one that is gone as removed; one that is
/// there as changed, unless the same event reports it as gone later on; and a directory that was
/// made or modified as one to look through.
pub proof fn every_path_of_an_event_is_noted(
    pending: PendingView,
    kind: EventKind,
    paths: Seq<EventPathView>,
    now: u128,
    i: int,
)
    requires
        0 <= i < paths.len(),
    ensures
        is_gone(kind, paths[i]) ==> holds(
            pending.pushed(kind, paths, now).removed,
            paths[i].path,
        ),
        is_there(kind, paths[i]) && (forall|j: int| #![trigger paths[j]]
            i < j < paths.len() ==> !is_gone(kind, paths[j]) || !same_path(
                paths[j].path,
                paths[i].path,
            )) ==> holds(pending.pushed(kind, paths, now).changed, paths[i].path),
        is_there(kind, paths[i]) && paths[i].is_dir && (kind == EventKind::Create || kind
            == EventKind::Modify) ==> holds(
            pending.pushed(kind, paths, now).roots,
            paths[i].path,
        ),
{
    lemma_noted_list(
        PendingView { queue: pending.queue.push(now), ..pending },
        kind,
        paths,
        i,
    );
}

/// One path of an event changes what is held of that path alone, and only as it says: a path that
/// is gone joins the removed ones and leaves the changed ones; a path that is there joins the
/// changed ones, and the directories to look through if it is one that was made or modified; and
/// a path that is neither changes nothing.
pub proof fn a_report_says_just_that(
    pending: PendingView,
    kind: EventKind,
    p: EventPathView,
    q: Seq<char>,
)
    ensures
        ({
            let after = pending.noted(kind, p);
            let same = same_path(q, p.path);
            let looked = is_there(kind, p) && p.is_dir && (kind == EventKind::Create || kind
                == EventKind::Modify);
            &&& holds(after.removed, q) <==> holds(pending.removed, q) || (is_gone(kind, p)
                && same)
            &&& holds(after.changed, q) <==> (holds(pending.changed, q) && !(is_gone(kind, p)
                && same)) || (is_there(kind, p) && same)
            &&& holds(after.roots, q) <==> holds(pending.roots, q) || (looked && same)
            &&& after.queue == pending.queue
            &&& !is_gone(kind, p) && !is_there(kind, p) ==> after == pending
        }),
{
    lemma_with(pending.removed, p.path);
    lemma_with(pending.changed, p.path);
    lemma_with(pending.roots, p.path);
    lemma_without(pending.changed, p.path);
}

/// A path that is not held yet is held as it was written, behind the others; one that is held
/// already stays where it is.
pub proof fn paths_are_noted_in_order(
    pending: PendingView,
    kind: EventKind,
    p: EventPathView,
)
    ensures
        is_there(kind, p) ==> pending.noted(kind, p).changed == (if holds(
            pending.changed,
            p.path,
        ) {
            pending.changed
        } else {
            pending.changed.push(p.path)
        }),
        is_gone(kind, p) ==> pending.noted(kind, p).removed == (if holds(pending.removed, p.path) {
            pending.removed
        } else {
            pending.removed.push(p.path)
        }),
        is_there(kind, p) && p.is_dir && (kind == EventKind::Create || kind == EventKind::Modify)
            ==> pending.noted(kind, p).roots == (if holds(pending.roots, p.path) {
            pending.roots
        } else {
            pending.roots.push(p.path)
        }),
{
}

/// A list holds a path exactly if one of its texts has the same components.
pub proof fn a_list_holds_what_is_in_it(list: Seq<Seq<char>>, i: int)
    requires
        0 <= i < list.len(),
    ensures
        holds(list, list[i]),
        !holds(seq![], list[i]),
{
    assert(same_path(list[i], list[i]));
}

/// A path that leaves a list leaves the others there in their order.
pub proof fn the_others_stay_in_order(
    a: Seq<Seq<char>>,
    b: Seq<Seq<char>>,
    path: Seq<char>,
    other: Seq<char>,
)
    requires
        !same_path(other, path),
    ensures
        without_path(a + b, path) == without_path(a, path) + without_path(b, path),
        without_path(seq![path], path) == Seq::<Seq<char>>::empty(),
        without_path(seq![other], path) == seq![other],
    decreases b.len(),
{
    assert(same_path(path, path));
    assert(seq![path].drop_last() =~= seq![]);
    assert(seq![other].drop_last() =~= seq![]);
    assert(without_path(seq![], path) =~= seq![]);
    assert(without_path(seq![other], path) =~= seq![other]);
    if b.len() == 0 {
        assert(a + b =~= a);
        assert(without_path(a, path) + without_path(b, path) =~= without_path(a, path));
    } else {
        the_others_stay_in_order(a, b.drop_last(), path, other);
        assert((a + b).drop_last() =~= a + b.drop_last());
        assert((a + b).last() == b.last());
        assert(without_path(a + b, path) =~= without_path(a, path) + without_path(b, path));
    }
}

proof fn lemma_queue_stays(pending: PendingView, kind: EventKind, paths: Seq<EventPathView>)
    ensures
        pending.noted_all(kind, paths).queue == pending.queue,
    decreases paths.len(),
{
    if paths.len() > 0 {
        lemma_queue_stays(pending, kind, paths.drop_last());
    }
}

/// Changes are written eight hundred milliseconds after the first event and not before.
pub proof fn changes_wait_for_the_first_event(
    pending: PendingView,
    kind: EventKind,
    paths: Seq<EventPathView>,
    at: u128,
    now: u128,
)
    ensures
        pending.pushed(kind, paths, at).queue == pending.queue.push(at),
        pending.queue.len() == 0 ==> !pending.ready(now),
        pending.queue.len() > 0 ==> (pending.ready(now) <==> now - pending.queue[0]
            >= 800_000_000),
        !PendingView::nothing().ready(now),
{
    lemma_queue_stays(PendingView { queue: pending.queue.push(at), ..pending }, kind, paths);
}

/// There is nothing to write exactly if no path is held at all.
pub proof fn nothing_to_write_is_no_path(pending: PendingView)
    ensures
        pending.is_empty() <==> forall|q: Seq<char>|
            !(#[trigger] holds(pending.changed, q)) && !holds(pending.removed, q) && !holds(
                pending.roots,
                q,
            ),
        PendingView::nothing().is_empty(),
{
    if pending.changed.len() > 0 {
        a_list_holds_what_is_in_it(pending.changed, 0);
    } else if pending.removed.len() > 0 {
        a_list_holds_what_is_in_it(pending.removed, 0);
        assert(!holds(pending.changed, pending.removed[0]));
    } else if pending.roots.len() > 0 {
        a_list_holds_what_is_in_it(pending.roots, 0);
        assert(!holds(pending.changed, pending.roots[0]));
    }
}

proof fn lemma_removals_in_order(paths: Seq<Seq<char>>, i: int)
    requires
        0 <= i < paths.len(),
    ensures
        removals(paths).len() == 2 * paths.len(),
        removals(paths)[2 * i] == ActionView::RemoveFile(paths[i]),
        removals(paths)[2 * i + 1] == ActionView::RemoveUnder(paths[i]),
    decreases paths.len(),
{
    let first = paths.drop_last();
    if first.len() > 0 {
        lemma_removals_in_order(
            first,
            if i < first.len() {
                i
            } else {
                0
            },
        );
    } else {
        assert(removals(first) =~= seq![]);
    }
}

/// Every change that is not left out is written, in the order in which it came: each removed path
/// is dropped and what lies below it, each changed path is added, each directory is looked
/// through, and at last whatever else is gone is dropped.
pub proof fn every_change_is_written_in_order(
    pending: PendingView,
    roots: Seq<Seq<char>>,
    patterns: Seq<Seq<char>>,
)
    ensures
        ({
            let all = pending.written(roots, patterns);
            let changed = heeded(pending.changed, roots, patterns);
            let dirs = heeded(pending.roots, roots, patterns);
            let n = 2 * pending.removed.len() as int;
            let m = changed.len() as int;
            let k = dirs.len() as int;
            &&& all.len() == n + m + k + 1
            &&& forall|i: int| #![trigger pending.removed[i]]
                0 <= i < pending.removed.len() ==> all[2 * i] == ActionView::RemoveFile(
                    pending.removed[i],
                ) && all[2 * i + 1] == ActionView::RemoveUnder(pending.removed[i])
            &&& forall|i: int| #![trigger changed[i]]
                0 <= i < m ==> all[n + i] == ActionView::InsertIfFile(changed[i])
            &&& forall|i: int| #![trigger dirs[i]]
                0 <= i < k ==> all[n + m + i] == ActionView::Index(dirs[i])
            &&& all[n + m + k] == ActionView::Prune
        }),
{
    let all = pending.written(roots, patterns);
    let gone = removals(pending.removed);
    let changed = heeded(pending.changed, roots, patterns);
    let dirs = heeded(pending.roots, roots, patterns);
    if pending.removed.len() > 0 {
        lemma_removals_in_order(pending.removed, 0);
    } else {
        assert(gone =~= seq![]);
    }
    assert(all.len() == gone.len() + changed.len() + dirs.len() + 1);
    assert forall|i: int| #![trigger pending.removed[i]]
        0 <= i < pending.removed.len() implies all[2 * i] == ActionView::RemoveFile(
        pending.removed[i],
    ) && all[2 * i + 1] == ActionView::RemoveUnder(pending.removed[i]) by {
        lemma_removals_in_order(pending.removed, i);
        assert(all[2 * i] == gone[2 * i]);
        assert(all[2 * i + 1] == gone[2 * i + 1]);
    }
    assert forall|i: int| #![trigger changed[i]] 0 <= i < changed.len() implies all[gone.len() + i]
        == ActionView::InsertIfFile(changed[i]) by {
        assert(all[gone.len() + i] == insertions(changed)[i]);
    }
    assert forall|i: int| #![trigger dirs[i]] 0 <= i < dirs.len() implies all[gone.len()
        + changed.len() + i] == ActionView::Index(dirs[i]) by {
        assert(all[gone.len() + changed.len() + i] == indexings(dirs)[i]);
    }
}

/// What is left out of a list is just what is left out of its parts, and nothing changes its
/// order.
pub proof fn leaving_out_keeps_the_order(
    a: Seq<Seq<char>>,
    b: Seq<Seq<char>>,
    roots: Seq<Seq<char>>,
    patterns: Seq<Seq<char>>,
    p: Seq<char>,
)
    ensures
        heeded(a + b, roots, patterns) == heeded(a, roots, patterns) + heeded(b, roots, patterns),
        heeded(seq![p], roots, patterns) == (if ignored(p, roots, patterns) {
            seq![]
        } else {
            seq![p]
        }),
    decreases b.len(),
{
    assert(seq![p].drop_last() =~= seq![]);
    assert(heeded(seq![], roots, patterns) =~= seq![]);
    assert(heeded(seq![p], roots, patterns) =~= if ignored(p, roots, patterns) {
        seq![]
    } else {
        seq![p]
    });
    if b.len() == 0 {
        assert(a + b =~= a);
        assert(heeded(a, roots, patterns) + heeded(b, roots, patterns) =~= heeded(
            a,
            roots,
            patterns,
        ));
    } else {
        leaving_out_keeps_the_order(a, b.drop_last(), roots, patterns, p);
        assert((a + b).drop_last() =~= a + b.drop_last());
        assert((a + b).last() == b.last());
        assert(heeded(a + b, roots, patterns) =~= heeded(a, roots, patterns) + heeded(
            b,
            roots,
            patterns,
        ));
    }
}

/// A watch takes in every event with all its paths, and nothing else that waiting brings; what it
/// watches and what it leaves out never changes. Once the changes are written it holds none.
pub proof fn a_watch_takes_in_events_alone(
    watch: WatchView,
    kind: EventKind,
    paths: Seq<EventPathView>,
    at: u128,
    now: u128,
)
    ensures
        ({
            let after = watch.told(ReceivedView::Event(kind, paths), at);
            &&& after.pending == watch.pending.pushed(kind, paths, at)
            &&& after.roots == watch.roots
            &&& after.patterns == watch.patterns
        }),
        watch.told(ReceivedView::Timeout, at) == watch,
        watch.told(ReceivedView::Error, at) == watch,
        watch.drained().roots == watch.roots,
        watch.drained().patterns == watch.patterns,
        watch.drained().pending.is_empty(),
        watch.drained().pending.queue.len() == 0,
        watch.written() == watch.pending.written(watch.roots, watch.patterns),
{
}

} // verus!
