//! Changes that were reported and not yet written to the index.

use crate::paths::{is_same_path, same_path};
use crate::text::{texts, to_chars};
use std::collections::VecDeque;
use vstd::prelude::*;

verus! {

/// How long changes are gathered, counted from the first of them, in nanoseconds.
pub const DEBOUNCE_WINDOW: u128 = 800_000_000;

/// What happened to a path.
#[derive(Debug, Clone, Copy, PartialEq, Eq, Structural)]
pub enum EventKind {
    Any,
    Access,
    Create,
    Modify,
    Remove,
    Other,
}

/// A path of an event, and what stands there now.
pub struct EventPath {
    pub path: String,
    pub exists: bool,
    pub is_dir: bool,
}

/// Something that happened in the file system.
pub struct Event {
    pub kind: EventKind,
    pub paths: Vec<EventPath>,
}

/// A path of an event as text.
pub struct EventPathView {
    pub path: Seq<char>,
    pub exists: bool,
    pub is_dir: bool,
}

impl View for EventPath {
    type V = EventPathView;

    open spec fn view(&self) -> EventPathView {
        EventPathView { path: self.path@, exists: self.exists, is_dir: self.is_dir }
    }
}

/// The paths of an event as texts.
pub open spec fn seen(paths: Seq<EventPath>) -> Seq<EventPathView> {
    paths.map_values(|p: EventPath| p@)
}

/// A list holds a path, however it is written.
pub open spec fn holds(list: Seq<Seq<char>>, path: Seq<char>) -> bool {
    exists|i: int| 0 <= i < list.len() && same_path(#[trigger] list[i], path)
}

/// No path is in a list twice, however it is written.
pub open spec fn all_different(list: Seq<Seq<char>>) -> bool {
    forall|i: int, j: int| #![trigger list[i], list[j]]
        0 <= i < j < list.len() ==> !same_path(list[i], list[j])
}

/// A list with a path, unless it is there.
pub open spec fn with_path(list: Seq<Seq<char>>, path: Seq<char>) -> Seq<Seq<char>> {
    if holds(list, path) {
        list
    } else {
        list.push(path)
    }
}

/// A list without a path.
pub open spec fn without_path(list: Seq<Seq<char>>, path: Seq<char>) -> Seq<Seq<char>>
    decreases list.len(),
{
    if list.len() == 0 {
        seq![]
    } else if same_path(list.last(), path) {
        without_path(list.drop_last(), path)
    } else {
        without_path(list.drop_last(), path).push(list.last())
    }
}

/// Changes that were reported and not yet written.
pub struct PendingChanges {
    /// Paths at which something stands.
    pub changed_paths: Vec<String>,
    /// Paths at which nothing stands, or nothing stood at some time.
    pub removed_paths: Vec<String>,
    /// Directories to look through again.
    pub roots_to_reindex: Vec<String>,
    /// When each event came.
    pub queue: VecDeque<u128>,
}

/// Changes as texts.
#[verifier::ext_equal]
pub struct PendingView {
    pub changed: Seq<Seq<char>>,
    pub removed: Seq<Seq<char>>,
    pub roots: Seq<Seq<char>>,
    pub queue: Seq<u128>,
}

impl View for PendingChanges {
    type V = PendingView;

    open spec fn view(&self) -> PendingView {
        PendingView {
            changed: texts(self.changed_paths@),
            removed: texts(self.removed_paths@),
            roots: texts(self.roots_to_reindex@),
            queue: self.queue@,
        }
    }
}

impl PendingView {
    /// No change at all.
    pub open spec fn nothing() -> PendingView {
        PendingView { changed: seq![], removed: seq![], roots: seq![], queue: seq![] }
    }

    /// No path is in a list twice.
    pub open spec fn wf(self) -> bool {
        &&& all_different(self.changed)
        &&& all_different(self.removed)
        &&& all_different(self.roots)
    }

    /// A path at which nothing stands.
    pub open spec fn gone(self, path: Seq<char>) -> PendingView {
        PendingView {
            removed: with_path(self.removed, path),
            changed: without_path(self.changed, path),
            ..self
        }
    }

    /// A path at which something stands.
    pub open spec fn there(self, path: Seq<char>) -> PendingView {
        PendingView { changed: with_path(self.changed, path), ..self }
    }

    /// What one path of an event adds.
    pub open spec fn noted(self, kind: EventKind, p: EventPathView) -> PendingView {
        match kind {
            EventKind::Create | EventKind::Modify => if !p.exists {
                self.gone(p.path)
            } else if p.is_dir {
                PendingView {
                    roots: with_path(self.roots, p.path),
                    ..self.there(p.path)
                }
            } else {
                self.there(p.path)
            },
            EventKind::Remove => self.gone(p.path),
            EventKind::Any | EventKind::Access | EventKind::Other => if p.exists {
                self.there(p.path)
            } else {
                self
            },
        }
    }

    /// What all paths of an event add, one after the other.
    pub open spec fn noted_all(self, kind: EventKind, paths: Seq<EventPathView>) -> PendingView
        decreases paths.len(),
    {
        if paths.len() == 0 {
            self
        } else {
            self.noted_all(kind, paths.drop_last()).noted(kind, paths.last())
        }
    }

    /// What an event adds that came at a time.
    pub open spec fn pushed(
        self,
        kind: EventKind,
        paths: Seq<EventPathView>,
        now: u128,
    ) -> PendingView {
        PendingView { queue: self.queue.push(now), ..self }.noted_all(kind, paths)
    }

    /// The first event came long enough ago.
    pub open spec fn ready(self, now: u128) -> bool {
        self.queue.len() > 0 && self.queue[0] + DEBOUNCE_WINDOW <= now
    }

    /// There is no path.
    pub open spec fn is_empty(self) -> bool {
        self.changed.len() == 0 && self.removed.len() == 0 && self.roots.len() == 0
    }
}

/// Finds a path in a list, however it is written.
fn find(list: &Vec<String>, path: &Vec<char>) -> (r: bool)
    ensures
        r == holds(texts(list@), path@),
{
    let mut i: usize = 0;
    while i < list.len()
        invariant
            i <= list@.len(),
            forall|k: int| #![trigger texts(list@)[k]]
                0 <= k < i ==> !same_path(texts(list@)[k], path@),
        decreases list@.len() - i,
    {
        assert(texts(list@)[i as int] == list@[i as int]@);
        if is_same_path(&to_chars(list[i].as_str()), path) {
            return true;
        }
        i += 1;
    }
    false
}

/// Puts a path into a list, unless it is there.
fn insert(list: &mut Vec<String>, path: &str)
    ensures
        texts(final(list)@) == with_path(texts(old(list)@), path@),
{
    if !find(list, &to_chars(path)) {
        list.push(String::from_str(path));
        assert(texts(list@) =~= texts(old(list)@).push(path@));
    }
}

/// The list without a path.
fn remove(list: &Vec<String>, path: &str) -> (r: Vec<String>)
    ensures
        texts(r@) == without_path(texts(list@), path@),
{
    let chars = to_chars(path);
    let mut r: Vec<String> = Vec::new();
    let mut i: usize = 0;
    assert(texts(r@) =~= seq![]);
    assert(texts(list@).take(0) =~= seq![]);
    while i < list.len()
        invariant
            i <= list@.len(),
            chars@ == path@,
            texts(r@) == without_path(texts(list@).take(i as int), path@),
        decreases list@.len() - i,
    {
        let ghost before = texts(r@);
        assert(texts(list@)[i as int] == list@[i as int]@);
        assert(texts(list@).take(i + 1).drop_last() =~= texts(list@).take(i as int));
        if !is_same_path(&to_chars(list[i].as_str()), &chars) {
            r.push(list[i].clone());
            assert(texts(r@) =~= before.push(list@[i as int]@));
        }
        i += 1;
    }
    assert(texts(list@).take(i as int) =~= texts(list@));
    r
}

/// Changes that were taken out to be written.
pub struct PendingSnapshot {
    pub changed_paths: Vec<String>,
    pub removed_paths: Vec<String>,
    pub roots_to_reindex: Vec<String>,
}

impl PendingChanges {
    /// No change at all.
    pub fn new() -> (r: Self)
        ensures
            r@ == PendingView::nothing(),
            r@.wf(),
    {
        let r = PendingChanges {
            changed_paths: Vec::new(),
            removed_paths: Vec::new(),
            roots_to_reindex: Vec::new(),
            queue: VecDeque::new(),
        };
        assert(r@ =~= PendingView::nothing());
        r
    }

    /// Notes a path at which nothing stands.
    fn note_gone(&mut self, path: &str)
        ensures
            final(self)@ == old(self)@.gone(path@),
    {
        insert(&mut self.removed_paths, path);
        self.changed_paths = remove(&self.changed_paths, path);
    }

    /// Notes one path of an event.
    fn note(&mut self, kind: EventKind, p: &EventPath)
        ensures
            final(self)@ == old(self)@.noted(kind, p@),
    {
        match kind {
            EventKind::Create | EventKind::Modify => {
                if p.exists {
                    insert(&mut self.changed_paths, p.path.as_str());
                    if p.is_dir {
                        insert(&mut self.roots_to_reindex, p.path.as_str());
                    }
                } else {
                    self.note_gone(p.path.as_str());
                }
            },
            EventKind::Remove => {
                self.note_gone(p.path.as_str());
            },
            EventKind::Any | EventKind::Access | EventKind::Other => {
                if p.exists {
                    insert(&mut self.changed_paths, p.path.as_str());
                }
            },
        }
    }

    /// Notes an event that came at a time.
    pub fn push(&mut self, event: &Event, now: u128)
        ensures
            final(self)@ == old(self)@.pushed(event.kind, seen(event.paths@), now),
            old(self)@.wf() ==> final(self)@.wf(),
    {
        proof {
            if self@.wf() {
                pushing_keeps_paths_apart(self@, event.kind, seen(event.paths@), now);
            }
        }
        self.queue.push_back(now);
        let ghost first = self@;
        let mut i: usize = 0;
        assert(seen(event.paths@).take(0) =~= seq![]);
        assert(first =~= (PendingView { queue: old(self)@.queue.push(now), ..old(self)@ }));
        while i < event.paths.len()
            invariant
                i <= event.paths@.len(),
                self@ == first.noted_all(event.kind, seen(event.paths@).take(i as int)),
            decreases event.paths@.len() - i,
        {
            self.note(event.kind, &event.paths[i]);
            assert(seen(event.paths@)[i as int] == event.paths@[i as int]@);
            assert(seen(event.paths@).take(i + 1).drop_last() =~= seen(event.paths@).take(
                i as int,
            ));
            i += 1;
        }
        assert(seen(event.paths@).take(i as int) =~= seen(event.paths@));
    }

    /// Tells whether the first event came long enough ago.
    pub fn ready(&self, now: u128) -> (r: bool)
        ensures
            r == self@.ready(now),
    {
        self.queue.len() > 0 && now >= DEBOUNCE_WINDOW && self.queue[0] <= now - DEBOUNCE_WINDOW
    }

    /// Tells whether there is no path.
    pub fn is_empty(&self) -> (r: bool)
        ensures
            r == self@.is_empty(),
    {
        assert(self@.changed.len() == self.changed_paths@.len());
        assert(self@.removed.len() == self.removed_paths@.len());
        assert(self@.roots.len() == self.roots_to_reindex@.len());
        self.changed_paths.is_empty() && self.removed_paths.is_empty()
            && self.roots_to_reindex.is_empty()
    }

    /// Takes everything out.
    pub fn drain(&mut self) -> (r: PendingSnapshot)
        ensures
            texts(r.changed_paths@) == old(self)@.changed,
            texts(r.removed_paths@) == old(self)@.removed,
            texts(r.roots_to_reindex@) == old(self)@.roots,
            final(self)@ == PendingView::nothing(),
            final(self)@.wf(),
    {
        let mut r = PendingSnapshot {
            changed_paths: Vec::new(),
            removed_paths: Vec::new(),
            roots_to_reindex: Vec::new(),
        };
        self.queue.clear();
        std::mem::swap(&mut self.changed_paths, &mut r.changed_paths);
        std::mem::swap(&mut self.removed_paths, &mut r.removed_paths);
        std::mem::swap(&mut self.roots_to_reindex, &mut r.roots_to_reindex);
        assert(self@ =~= PendingView::nothing());
        r
    }
}

/// What a list holds without a path.
pub proof fn lemma_without(list: Seq<Seq<char>>, path: Seq<char>)
    ensures
        forall|q: Seq<char>| #[trigger]
            holds(without_path(list, path), q) <==> holds(list, q) && !same_path(q, path),
        all_different(list) ==> all_different(without_path(list, path)),
    decreases list.len(),
{
    if list.len() > 0 {
        let first = list.drop_last();
        let w = without_path(first, path);
        let r = without_path(list, path);
        lemma_without(first, path);
        assert forall|q: Seq<char>| #[trigger] holds(r, q) <==> holds(list, q) && !same_path(
            q,
            path,
        ) by {
            if holds(r, q) {
                let i = choose|i: int| 0 <= i < r.len() && same_path(#[trigger] r[i], q);
                if i < w.len() {
                    assert(same_path(w[i], q));
                    assert(holds(w, q));
                    assert(holds(first, q));
                    let j = choose|j: int|
                        0 <= j < first.len() && same_path(#[trigger] first[j], q);
                    assert(same_path(list[j], q));
                } else {
                    assert(same_path(list[list.len() - 1], q));
                }
            }
            if holds(list, q) && !same_path(q, path) {
                let i = choose|i: int| 0 <= i < list.len() && same_path(#[trigger] list[i], q);
                if i < first.len() {
                    assert(same_path(first[i], q));
                    assert(holds(first, q));
                    assert(holds(w, q));
                    let j = choose|j: int| 0 <= j < w.len() && same_path(#[trigger] w[j], q);
                    assert(same_path(r[j], q));
                } else {
                    assert(!same_path(list.last(), path));
                    assert(same_path(r[w.len() as int], q));
                }
            }
        }
        if all_different(list) {
            assert(all_different(first)) by {
                assert forall|i: int, j: int| #![trigger first[i], first[j]]
                    0 <= i < j < first.len() implies !same_path(first[i], first[j]) by {
                    assert(!same_path(list[i], list[j]));
                }
            }
            if !same_path(list.last(), path) {
                assert forall|i: int| 0 <= i < w.len() implies !same_path(
                    #[trigger] w[i],
                    list.last(),
                ) by {
                    assert(same_path(w[i], w[i]));
                    assert(holds(w, w[i]));
                    assert(holds(first, w[i]));
                    let k = choose|k: int|
                        0 <= k < first.len() && same_path(#[trigger] first[k], w[i]);
                    assert(!same_path(list[k], list[list.len() - 1]));
                }
            }
        }
    }
}

/// What a list holds with a path.
pub proof fn lemma_with(list: Seq<Seq<char>>, path: Seq<char>)
    ensures
        forall|q: Seq<char>| #[trigger]
            holds(with_path(list, path), q) <==> holds(list, q) || same_path(q, path),
        all_different(list) ==> all_different(with_path(list, path)),
{
    let r = with_path(list, path);
    assert forall|q: Seq<char>| #[trigger] holds(r, q) <==> holds(list, q) || same_path(q, path) by {
        if holds(list, q) {
            let i = choose|i: int| 0 <= i < list.len() && same_path(#[trigger] list[i], q);
            assert(same_path(r[i], q));
        }
        if same_path(q, path) {
            if holds(list, path) {
                let i = choose|i: int| 0 <= i < list.len() && same_path(#[trigger] list[i], path);
                assert(same_path(r[i], q));
            } else {
                assert(same_path(r[list.len() as int], q));
            }
        }
        if holds(r, q) {
            let i = choose|i: int| 0 <= i < r.len() && same_path(#[trigger] r[i], q);
            if i < list.len() {
                assert(same_path(list[i], q));
            }
        }
    }
}

/// No path is ever held twice: what an event adds keeps every list free of repetition.
pub proof fn pushing_keeps_paths_apart(
    pending: PendingView,
    kind: EventKind,
    paths: Seq<EventPathView>,
    now: u128,
)
    requires
        pending.wf(),
    ensures
        pending.pushed(kind, paths, now).wf(),
    decreases paths.len(),
{
    if paths.len() > 0 {
        pushing_keeps_paths_apart(pending, kind, paths.drop_last(), now);
        let p = paths.last();
        let before = pending.pushed(kind, paths.drop_last(), now);
        lemma_with(before.changed, p.path);
        lemma_with(before.removed, p.path);
        lemma_with(before.roots, p.path);
        lemma_without(before.changed, p.path);
    }
}

/// A path at which nothing stands is held as removed and not as changed.
pub proof fn a_gone_path_is_removed(pending: PendingView, kind: EventKind, p: EventPathView)
    requires
        kind == EventKind::Remove || ((kind == EventKind::Create || kind == EventKind::Modify)
            && !p.exists),
    ensures
        holds(pending.noted(kind, p).removed, p.path),
        !holds(pending.noted(kind, p).changed, p.path),
        pending.noted(kind, p).roots == pending.roots,
{
    lemma_with(pending.removed, p.path);
    lemma_without(pending.changed, p.path);
    assert(same_path(p.path, p.path));
}

/// A path at which something stands is held as changed, unless it is reported as removed. A
/// directory that was made or modified is to be looked through.
pub proof fn a_path_that_is_there_is_changed(pending: PendingView, kind: EventKind, p: EventPathView)
    requires
        p.exists,
        kind != EventKind::Remove,
    ensures
        holds(pending.noted(kind, p).changed, p.path),
        pending.noted(kind, p).removed == pending.removed,
        p.is_dir && (kind == EventKind::Create || kind == EventKind::Modify) ==> holds(
            pending.noted(kind, p).roots,
            p.path,
        ),
{
    lemma_with(pending.changed, p.path);
    lemma_with(pending.roots, p.path);
    assert(same_path(p.path, p.path));
}

/// A path leaves the changed ones only when it is reported as gone itself; no path ever leaves
/// the removed ones or the directories to look through.
pub proof fn other_paths_stay(pending: PendingView, kind: EventKind, p: EventPathView, q: Seq<char>)
    ensures
        !same_path(p.path, q) ==> (holds(pending.noted(kind, p).changed, q) <==> holds(
            pending.changed,
            q,
        )),
        holds(pending.removed, q) ==> holds(pending.noted(kind, p).removed, q),
        holds(pending.roots, q) ==> holds(pending.noted(kind, p).roots, q),
{
    lemma_with(pending.changed, p.path);
    lemma_with(pending.removed, p.path);
    lemma_with(pending.roots, p.path);
    lemma_without(pending.changed, p.path);
}

proof fn lemma_queue(pending: PendingView, kind: EventKind, paths: Seq<EventPathView>)
    ensures
        pending.noted_all(kind, paths).queue == pending.queue,
    decreases paths.len(),
{
    if paths.len() > 0 {
        lemma_queue(pending, kind, paths.drop_last());
    }
}

/// Changes are gathered for the debounce window, counted from the first event: later events do
/// not put off the time at which they are written.
pub proof fn later_events_do_not_delay(
    pending: PendingView,
    kind: EventKind,
    paths: Seq<EventPathView>,
    at: u128,
    now: u128,
)
    ensures
        pending.queue.len() > 0 ==> pending.pushed(kind, paths, at).ready(now) == pending.ready(
            now,
        ),
        pending.queue.len() == 0 ==> pending.pushed(kind, paths, at).ready(now) == (at
            + DEBOUNCE_WINDOW <= now),
{
    lemma_queue(PendingView { queue: pending.queue.push(at), ..pending }, kind, paths);
}

} // verus!
