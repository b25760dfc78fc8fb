//! What is to be done to the index, and when.

use crate::config::{index_roots, roots_of, Config};
use crate::paths::same_path;
use crate::patterns::{Glob, PatternError};
use crate::text::texts;
use crate::watcher::ignore::{compile_patterns, first_error, ignored, is_ignored, sources};
use crate::watcher::pending::{
    a_gone_path_is_removed, a_path_that_is_there_is_changed, seen, Event, EventKind,
    EventPathView, PendingChanges, PendingView,
};
use vstd::prelude::*;

verus! {

/// One thing to do to the index or to the watch on the file system.
pub enum SyncAction {
    /// Drop a path.
    RemoveFile(String),
    /// Drop every path below a path.
    RemoveUnder(String),
    /// Add a path if a file stands there.
    InsertIfFile(String),
    /// Look through a directory and add its files.
    Index(String),
    /// Drop every path at which nothing stands.
    Prune,
    /// Watch a directory and everything below it.
    Watch(String),
}

/// One thing to do, as text.
#[verifier::ext_equal]
pub enum ActionView {
    RemoveFile(Seq<char>),
    RemoveUnder(Seq<char>),
    InsertIfFile(Seq<char>),
    Index(Seq<char>),
    Prune,
    Watch(Seq<char>),
}

impl View for SyncAction {
    type V = ActionView;

    open spec fn view(&self) -> ActionView {
        match *self {
            SyncAction::RemoveFile(p) => ActionView::RemoveFile(p@),
            SyncAction::RemoveUnder(p) => ActionView::RemoveUnder(p@),
            SyncAction::InsertIfFile(p) => ActionView::InsertIfFile(p@),
            SyncAction::Index(p) => ActionView::Index(p@),
            SyncAction::Prune => ActionView::Prune,
            SyncAction::Watch(p) => ActionView::Watch(p@),
        }
    }
}

/// Things to do as texts.
pub open spec fn steps(list: Seq<SyncAction>) -> Seq<ActionView> {
    list.map_values(|a: SyncAction| a@)
}

/// Dropping paths and what lies below them.
pub open spec fn removals(paths: Seq<Seq<char>>) -> Seq<ActionView>
    decreases paths.len(),
{
    if paths.len() == 0 {
        seq![]
    } else {
        removals(paths.drop_last()) + seq![
            ActionView::RemoveFile(paths.last()),
            ActionView::RemoveUnder(paths.last()),
        ]
    }
}

/// The paths of a list that are not left out.
pub open spec fn heeded(
    paths: Seq<Seq<char>>,
    roots: Seq<Seq<char>>,
    patterns: Seq<Seq<char>>,
) -> Seq<Seq<char>>
    decreases paths.len(),
{
    if paths.len() == 0 {
        seq![]
    } else if ignored(paths.last(), roots, patterns) {
        heeded(paths.drop_last(), roots, patterns)
    } else {
        heeded(paths.drop_last(), roots, patterns).push(paths.last())
    }
}

/// Adding paths at which files stand.
pub open spec fn insertions(paths: Seq<Seq<char>>) -> Seq<ActionView> {
    paths.map_values(|p: Seq<char>| ActionView::InsertIfFile(p))
}

/// Looking through directories.
pub open spec fn indexings(paths: Seq<Seq<char>>) -> Seq<ActionView> {
    paths.map_values(|p: Seq<char>| ActionView::Index(p))
}

/// Watching directories.
pub open spec fn watches(paths: Seq<Seq<char>>) -> Seq<ActionView> {
    paths.map_values(|p: Seq<char>| ActionView::Watch(p))
}

impl PendingView {
    /// What writing the changes takes: first what is gone, then what is there, then the
    /// directories to look through, and at last whatever else is gone.
    pub open spec fn written(
        self,
        roots: Seq<Seq<char>>,
        patterns: Seq<Seq<char>>,
    ) -> Seq<ActionView> {
        removals(self.removed) + insertions(heeded(self.changed, roots, patterns)) + indexings(
            heeded(self.roots, roots, patterns),
        ) + seq![ActionView::Prune]
    }
}

/// Adds one thing to do.
fn add_action(list: &mut Vec<SyncAction>, action: SyncAction)
    ensures
        steps(final(list)@) == steps(old(list)@).push(action@),
{
    list.push(action);
    assert(steps(list@) =~= steps(old(list)@).push(action@));
}

/// The paths of a list that are not left out.
fn heed(paths: &Vec<String>, roots: &Vec<String>, patterns: &Vec<Glob>) -> (r: Vec<String>)
    ensures
        texts(r@) == heeded(texts(paths@), texts(roots@), sources(patterns@)),
{
    let mut r: Vec<String> = Vec::new();
    let mut i: usize = 0;
    assert(texts(r@) =~= seq![]);
    assert(texts(paths@).take(0) =~= seq![]);
    while i < paths.len()
        invariant
            i <= paths@.len(),
            texts(r@) == heeded(
                texts(paths@).take(i as int),
                texts(roots@),
                sources(patterns@),
            ),
        decreases paths@.len() - i,
    {
        let ghost before = texts(r@);
        assert(texts(paths@)[i as int] == paths@[i as int]@);
        assert(texts(paths@).take(i + 1).drop_last() =~= texts(paths@).take(i as int));
        if !is_ignored(paths[i].as_str(), roots, patterns) {
            r.push(paths[i].clone());
            assert(texts(r@) =~= before.push(paths@[i as int]@));
        }
        i += 1;
    }
    assert(texts(paths@).take(i as int) =~= texts(paths@));
    r
}

/// Adds the dropping of paths and of what lies below them.
fn add_removals(list: &mut Vec<SyncAction>, paths: &Vec<String>)
    ensures
        steps(final(list)@) == steps(old(list)@) + removals(texts(paths@)),
{
    let ghost first = steps(list@);
    let mut i: usize = 0;
    assert(texts(paths@).take(0) =~= seq![]);
    assert(first + removals(seq![]) =~= first);
    while i < paths.len()
        invariant
            i <= paths@.len(),
            steps(list@) == first + removals(texts(paths@).take(i as int)),
        decreases paths@.len() - i,
    {
        assert(texts(paths@)[i as int] == paths@[i as int]@);
        assert(texts(paths@).take(i + 1).drop_last() =~= texts(paths@).take(i as int));
        add_action(list, SyncAction::RemoveFile(paths[i].clone()));
        add_action(list, SyncAction::RemoveUnder(paths[i].clone()));
        i += 1;
        assert(steps(list@) =~= first + removals(texts(paths@).take(i as int)));
    }
    assert(texts(paths@).take(i as int) =~= texts(paths@));
}

/// Adds the adding of paths.
fn add_insertions(list: &mut Vec<SyncAction>, paths: &Vec<String>)
    ensures
        steps(final(list)@) == steps(old(list)@) + insertions(texts(paths@)),
{
    let ghost first = steps(list@);
    let mut i: usize = 0;
    while i < paths.len()
        invariant
            i <= paths@.len(),
            steps(list@) == first + insertions(texts(paths@).take(i as int)),
        decreases paths@.len() - i,
    {
        add_action(list, SyncAction::InsertIfFile(paths[i].clone()));
        i += 1;
        assert(steps(list@) =~= first + insertions(texts(paths@).take(i as int)));
    }
    assert(texts(paths@).take(i as int) =~= texts(paths@));
}

/// Adds the looking through of directories.
fn add_indexings(list: &mut Vec<SyncAction>, paths: &Vec<String>)
    ensures
        steps(final(list)@) == steps(old(list)@) + indexings(texts(paths@)),
{
    let ghost first = steps(list@);
    let mut i: usize = 0;
    while i < paths.len()
        invariant
            i <= paths@.len(),
            steps(list@) == first + indexings(texts(paths@).take(i as int)),
        decreases paths@.len() - i,
    {
        add_action(list, SyncAction::Index(paths[i].clone()));
        i += 1;
        assert(steps(list@) =~= first + indexings(texts(paths@).take(i as int)));
    }
    assert(texts(paths@).take(i as int) =~= texts(paths@));
}

/// Adds the watching of directories.
fn add_watches(list: &mut Vec<SyncAction>, paths: &Vec<String>)
    ensures
        steps(final(list)@) == steps(old(list)@) + watches(texts(paths@)),
{
    let ghost first = steps(list@);
    let mut i: usize = 0;
    while i < paths.len()
        invariant
            i <= paths@.len(),
            steps(list@) == first + watches(texts(paths@).take(i as int)),
        decreases paths@.len() - i,
    {
        add_action(list, SyncAction::Watch(paths[i].clone()));
        i += 1;
        assert(steps(list@) =~= first + watches(texts(paths@).take(i as int)));
    }
    assert(texts(paths@).take(i as int) =~= texts(paths@));
}

/// Takes the changes out and says what writing them takes.
pub fn flush_pending(
    include_roots: &Vec<String>,
    ignore_patterns: &Vec<Glob>,
    pending: &mut PendingChanges,
) -> (r: Vec<SyncAction>)
    ensures
        steps(r@) == old(pending)@.written(texts(include_roots@), sources(ignore_patterns@)),
        final(pending)@ == PendingView::nothing(),
{
    let snapshot = pending.drain();
    let mut r: Vec<SyncAction> = Vec::new();
    add_removals(&mut r, &snapshot.removed_paths);
    let changed = heed(&snapshot.changed_paths, include_roots, ignore_patterns);
    add_insertions(&mut r, &changed);
    let roots = heed(&snapshot.roots_to_reindex, include_roots, ignore_patterns);
    add_indexings(&mut r, &roots);
    add_action(&mut r, SyncAction::Prune);
    assert(steps(r@) =~= old(pending)@.written(texts(include_roots@), sources(ignore_patterns@)));
    r
}

/// Whether a request to stop came in.
#[derive(Debug, Clone, Copy, PartialEq, Eq, Structural)]
pub enum StopSignal {
    /// There is no way to ask for a stop.
    NoChannel,
    /// None came.
    Empty,
    /// One came.
    Received,
    /// None can come any more.
    Disconnected,
}

/// Tells whether to stop.
pub fn should_stop(signal: StopSignal) -> (r: bool)
    ensures
        r == (signal == StopSignal::Received || signal == StopSignal::Disconnected),
{
    match signal {
        StopSignal::NoChannel => false,
        StopSignal::Empty => false,
        StopSignal::Received => true,
        StopSignal::Disconnected => true,
    }
}

/// How changes in the file system are found out.
#[derive(Debug, Clone, Copy, PartialEq, Eq, Structural)]
pub enum WatchBackend {
    /// The system reports them.
    Native,
    /// The directories are looked through again and again, so many milliseconds apart.
    Poll { interval_ms: u64 },
}

/// The way that was asked for.
pub fn backend(poll: bool, interval_ms: u64) -> (r: WatchBackend)
    ensures
        r == (if poll {
            WatchBackend::Poll { interval_ms }
        } else {
            WatchBackend::Native
        }),
{
    if poll {
        WatchBackend::Poll { interval_ms }
    } else {
        WatchBackend::Native
    }
}

/// What waiting for an event brought.
pub enum Received {
    Event(Event),
    /// The watch reported an error.
    Error,
    /// Nothing came in time.
    Timeout,
    /// Nothing can come any more.
    Disconnected,
}

/// What waiting brought, as texts.
pub enum ReceivedView {
    Event(EventKind, Seq<EventPathView>),
    Error,
    Timeout,
    Disconnected,
}

impl View for Received {
    type V = ReceivedView;

    open spec fn view(&self) -> ReceivedView {
        match *self {
            Received::Event(event) => ReceivedView::Event(event.kind, seen(event.paths@)),
            Received::Error => ReceivedView::Error,
            Received::Timeout => ReceivedView::Timeout,
            Received::Disconnected => ReceivedView::Disconnected,
        }
    }
}

/// The watch on the file system ended by itself.
#[derive(Debug, Clone, Copy, PartialEq, Eq, Structural)]
pub struct ChannelClosed;

/// A watch on the file system.
pub struct Watch {
    pub pending: PendingChanges,
    pub include_roots: Vec<String>,
    pub ignore_patterns: Vec<Glob>,
}

/// A watch as texts.
#[verifier::ext_equal]
pub struct WatchView {
    pub pending: PendingView,
    pub roots: Seq<Seq<char>>,
    pub patterns: Seq<Seq<char>>,
}

impl View for Watch {
    type V = WatchView;

    open spec fn view(&self) -> WatchView {
        WatchView {
            pending: self.pending@,
            roots: texts(self.include_roots@),
            patterns: sources(self.ignore_patterns@),
        }
    }
}

impl WatchView {
    /// The watch with nothing left to write.
    pub open spec fn drained(self) -> WatchView {
        WatchView { pending: PendingView::nothing(), ..self }
    }

    /// What writing the changes takes.
    pub open spec fn written(self) -> Seq<ActionView> {
        self.pending.written(self.roots, self.patterns)
    }

    /// The watch once something came in at a time.
    pub open spec fn told(self, received: ReceivedView, at: u128) -> WatchView {
        match received {
            ReceivedView::Event(kind, paths) => WatchView {
                pending: self.pending.pushed(kind, paths, at),
                ..self
            },
            _ => self,
        }
    }
}

/// What starting a watch takes: look through every location, drop what is gone, and watch.
pub open spec fn startup(roots: Seq<Seq<char>>) -> Seq<ActionView> {
    indexings(roots) + seq![ActionView::Prune] + watches(roots)
}

impl Watch {
    /// Starts a watch for a configuration, unless one of its patterns is none.
    pub fn start(config: &Config) -> (r: Result<(Watch, Vec<SyncAction>), PatternError>)
        ensures
            match r {
                Ok((watch, actions)) => {
                    &&& first_error(config@.ignore) is None
                    &&& watch@ == (WatchView {
                        pending: PendingView::nothing(),
                        roots: roots_of(config@),
                        patterns: config@.ignore,
                    })
                    &&& steps(actions@) == startup(roots_of(config@))
                },
                Err(e) => first_error(config@.ignore) == Some((e.pos, e.msg@)),
            },
    {
        let include_roots = index_roots(config);
        match compile_patterns(&config.ignore) {
            Err(e) => Err(e),
            Ok(ignore_patterns) => {
                let mut actions: Vec<SyncAction> = Vec::new();
                add_indexings(&mut actions, &include_roots);
                add_action(&mut actions, SyncAction::Prune);
                add_watches(&mut actions, &include_roots);
                assert(steps(actions@) =~= startup(roots_of(config@)));
                let pending = PendingChanges::new();
                Ok((Watch { pending, include_roots, ignore_patterns }, actions))
            },
        }
    }

    /// Says what writing the changes takes and forgets them.
    fn flush(&mut self) -> (r: Vec<SyncAction>)
        ensures
            steps(r@) == old(self)@.written(),
            final(self)@ == old(self)@.drained(),
    {
        flush_pending(&self.include_roots, &self.ignore_patterns, &mut self.pending)
    }

    /// If a stop is asked for, says what is left to be done before it.
    pub fn stop(&mut self, signal: StopSignal) -> (r: Option<Vec<SyncAction>>)
        ensures
            match r {
                None => !(signal == StopSignal::Received || signal == StopSignal::Disconnected)
                    && final(self)@ == old(self)@,
                Some(actions) => {
                    &&& signal == StopSignal::Received || signal == StopSignal::Disconnected
                    &&& if old(self)@.pending.is_empty() {
                        actions@.len() == 0 && final(self)@ == old(self)@
                    } else {
                        steps(actions@) == old(self)@.written() && final(self)@
                            == old(self)@.drained()
                    }
                },
            },
    {
        if !should_stop(signal) {
            None
        } else if self.pending.is_empty() {
            Some(Vec::new())
        } else {
            Some(self.flush())
        }
    }

    /// Takes in what waiting for an event brought, and says what is to be done by now.
    pub fn step(&mut self, received: Received, at: u128, now: u128) -> (r: Result<
        Vec<SyncAction>,
        ChannelClosed,
    >)
        ensures
            match r {
                Err(ChannelClosed) => received@ == ReceivedView::Disconnected && final(self)@
                    == old(self)@,
                Ok(actions) => {
                    let told = old(self)@.told(received@, at);
                    &&& received@ != ReceivedView::Disconnected
                    &&& if told.pending.ready(now) {
                        steps(actions@) == told.written() && final(self)@ == told.drained()
                    } else {
                        actions@.len() == 0 && final(self)@ == told
                    }
                },
            },
            old(self)@.pending.wf() ==> final(self)@.pending.wf(),
    {
        match received {
            Received::Event(event) => {
                self.pending.push(&event, at);
            },
            Received::Error => {},
            Received::Timeout => {},
            Received::Disconnected => {
                return Err(ChannelClosed);
            },
        }
        if self.pending.ready(now) {
            Ok(self.flush())
        } else {
            Ok(Vec::new())
        }
    }
}

/// Starting a watch looks through every location and watches every location, and watches none
/// before everything that is gone was dropped.
pub proof fn startup_covers_every_location(roots: Seq<Seq<char>>, i: int)
    requires
        0 <= i < roots.len(),
    ensures
        startup(roots)[i] == ActionView::Index(roots[i]),
        startup(roots)[roots.len() as int] == ActionView::Prune,
        startup(roots)[roots.len() + 1 + i] == ActionView::Watch(roots[i]),
        startup(roots).len() == 2 * roots.len() + 1,
{
}

/// The paths that are not left out are those of the list that no pattern accepts.
pub proof fn lemma_heeded(
    paths: Seq<Seq<char>>,
    roots: Seq<Seq<char>>,
    patterns: Seq<Seq<char>>,
    p: Seq<char>,
)
    ensures
        heeded(paths, roots, patterns).contains(p) <==> paths.contains(p) && !ignored(
            p,
            roots,
            patterns,
        ),
    decreases paths.len(),
{
    if paths.len() > 0 {
        let first = paths.drop_last();
        let h = heeded(first, roots, patterns);
        let all = heeded(paths, roots, patterns);
        lemma_heeded(first, roots, patterns, p);
        if paths.contains(p) && !ignored(p, roots, patterns) {
            let i = choose|i: int| 0 <= i < paths.len() && paths[i] == p;
            if i < first.len() {
                assert(first[i] == p);
                let j = choose|j: int| 0 <= j < h.len() && h[j] == p;
                assert(all[j] == p);
            } else {
                assert(all[h.len() as int] == p);
            }
        }
        if all.contains(p) {
            let j = choose|j: int| 0 <= j < all.len() && all[j] == p;
            if j < h.len() {
                assert(h[j] == p);
                let i = choose|i: int| 0 <= i < first.len() && first[i] == p;
                assert(paths[i] == p);
            } else {
                assert(paths[paths.len() - 1] == p);
            }
        }
    }
}

proof fn lemma_removals(paths: Seq<Seq<char>>, a: ActionView)
    ensures
        removals(paths).len() == 2 * paths.len(),
        removals(paths).contains(a) <==> (a matches ActionView::RemoveFile(p) && paths.contains(p))
            || (a matches ActionView::RemoveUnder(p) && paths.contains(p)),
    decreases paths.len(),
{
    if paths.len() > 0 {
        let first = paths.drop_last();
        let r = removals(first);
        let last = paths.last();
        let all = removals(paths);
        lemma_removals(first, a);
        if all.contains(a) {
            let j = choose|j: int| 0 <= j < all.len() && all[j] == a;
            if j < r.len() {
                assert(r[j] == a);
                let p = match a {
                    ActionView::RemoveFile(p) => p,
                    ActionView::RemoveUnder(p) => p,
                    _ => arbitrary(),
                };
                let i = choose|i: int| 0 <= i < first.len() && first[i] == p;
                assert(paths[i] == p);
            } else {
                assert(paths[paths.len() - 1] == last);
            }
        }
        let p = match a {
            ActionView::RemoveFile(p) => p,
            ActionView::RemoveUnder(p) => p,
            _ => arbitrary(),
        };
        if (a is RemoveFile || a is RemoveUnder) && paths.contains(p) {
            let i = choose|i: int| 0 <= i < paths.len() && paths[i] == p;
            if i < first.len() {
                assert(first[i] == p);
                let j = choose|j: int| 0 <= j < r.len() && r[j] == a;
                assert(all[j] == a);
            } else {
                assert(all[r.len() as int] == ActionView::RemoveFile(last));
                assert(all[r.len() as int + 1] == ActionView::RemoveUnder(last));
            }
        }
    }
}

proof fn lemma_mapped(paths: Seq<Seq<char>>, p: Seq<char>)
    ensures
        insertions(paths).contains(ActionView::InsertIfFile(p)) <==> paths.contains(p),
        indexings(paths).contains(ActionView::Index(p)) <==> paths.contains(p),
{
    if paths.contains(p) {
        let i = choose|i: int| 0 <= i < paths.len() && paths[i] == p;
        assert(insertions(paths)[i] == ActionView::InsertIfFile(p));
        assert(indexings(paths)[i] == ActionView::Index(p));
    }
    if insertions(paths).contains(ActionView::InsertIfFile(p)) {
        let i = choose|i: int|
            0 <= i < paths.len() && insertions(paths)[i] == ActionView::InsertIfFile(p);
        assert(paths[i] == p);
    }
    if indexings(paths).contains(ActionView::Index(p)) {
        let i = choose|i: int|
            0 <= i < paths.len() && indexings(paths)[i] == ActionView::Index(p);
        assert(paths[i] == p);
    }
}

/// How far an action stands from the start of what is to be written.
pub open spec fn stage(action: ActionView) -> int {
    match action {
        ActionView::RemoveFile(_) | ActionView::RemoveUnder(_) => 0,
        ActionView::InsertIfFile(_) => 1,
        ActionView::Index(_) => 2,
        ActionView::Prune => 3,
        ActionView::Watch(_) => 4,
    }
}

/// Writing changes drops everything that is gone before it adds anything, so that a path that
/// came back stays. It adds single paths before it looks through directories, and drops
/// whatever else is gone at the very end, once.
pub proof fn writing_is_in_order(
    pending: PendingView,
    roots: Seq<Seq<char>>,
    patterns: Seq<Seq<char>>,
    i: int,
    j: int,
)
    requires
        0 <= i < j < pending.written(roots, patterns).len(),
    ensures
        stage(pending.written(roots, patterns)[i]) <= stage(pending.written(roots, patterns)[j]),
        stage(pending.written(roots, patterns)[i]) < 3,
        pending.written(roots, patterns).last() == ActionView::Prune,
{
    let first = removals(pending.removed);
    let second = insertions(heeded(pending.changed, roots, patterns));
    let third = indexings(heeded(pending.roots, roots, patterns));
    let all = pending.written(roots, patterns);
    assert forall|k: int| 0 <= k < all.len() implies #[trigger] stage(all[k]) == (if k
        < first.len() {
        0int
    } else if k < first.len() + second.len() {
        1
    } else if k < first.len() + second.len() + third.len() {
        2
    } else {
        3
    }) by {
        if k < first.len() {
            lemma_removals(pending.removed, first[k]);
            assert(first.contains(first[k]));
            assert(all[k] == first[k]);
        } else if k < first.len() + second.len() {
            assert(all[k] == second[k - first.len()]);
        } else if k < first.len() + second.len() + third.len() {
            assert(all[k] == third[k - first.len() - second.len()]);
        }
    }
    assert(stage(all[i]) <= stage(all[j]));
}

/// Writing changes drops exactly the paths that are held as removed, with what lies below them.
/// It adds exactly the changed paths, and looks through exactly the directories, that are not
/// left out.
pub proof fn writing_is_complete(
    pending: PendingView,
    roots: Seq<Seq<char>>,
    patterns: Seq<Seq<char>>,
    p: Seq<char>,
)
    ensures
        ({
            let all = pending.written(roots, patterns);
            &&& all.contains(ActionView::RemoveFile(p)) <==> pending.removed.contains(p)
            &&& all.contains(ActionView::RemoveUnder(p)) <==> pending.removed.contains(p)
            &&& all.contains(ActionView::InsertIfFile(p)) <==> pending.changed.contains(p)
                && !ignored(p, roots, patterns)
            &&& all.contains(ActionView::Index(p)) <==> pending.roots.contains(p) && !ignored(
                p,
                roots,
                patterns,
            )
        }),
{
    let h1 = heeded(pending.changed, roots, patterns);
    let h2 = heeded(pending.roots, roots, patterns);
    let first = removals(pending.removed);
    let second = insertions(h1);
    let third = indexings(h2);
    lemma_removals(pending.removed, ActionView::RemoveFile(p));
    lemma_removals(pending.removed, ActionView::RemoveUnder(p));
    lemma_removals(pending.removed, ActionView::InsertIfFile(p));
    lemma_removals(pending.removed, ActionView::Index(p));
    lemma_heeded(pending.changed, roots, patterns, p);
    lemma_heeded(pending.roots, roots, patterns, p);
    lemma_mapped(h1, p);
    lemma_mapped(h2, p);
    lemma_in_one(first, second, third, ActionView::RemoveFile(p));
    lemma_in_one(first, second, third, ActionView::RemoveUnder(p));
    lemma_in_one(first, second, third, ActionView::InsertIfFile(p));
    lemma_in_one(first, second, third, ActionView::Index(p));
}

/// The last report of a path decides. If nothing stands there, the path is dropped, with what
/// lies below it, and not added. If something does, it is added unless it is left out.
pub proof fn the_last_report_decides(
    pending: PendingView,
    kind: EventKind,
    p: EventPathView,
    roots: Seq<Seq<char>>,
    patterns: Seq<Seq<char>>,
)
    ensures
        ({
            let all = pending.noted(kind, p).written(roots, patterns);
            let modified = kind == EventKind::Create || kind == EventKind::Modify;
            &&& kind == EventKind::Remove || (modified && !p.exists) ==> {
                &&& exists|q: Seq<char>| #[trigger]
                    same_path(q, p.path) && all.contains(ActionView::RemoveFile(q))
                        && all.contains(ActionView::RemoveUnder(q))
                &&& forall|q: Seq<char>| #[trigger]
                    same_path(q, p.path) ==> !all.contains(ActionView::InsertIfFile(q))
            }
            &&& kind != EventKind::Remove && p.exists ==> exists|q: Seq<char>| #[trigger]
                same_path(q, p.path) && (ignored(q, roots, patterns) || all.contains(
                    ActionView::InsertIfFile(q),
                ))
        }),
{
    let after = pending.noted(kind, p);
    let all = after.written(roots, patterns);
    let modified = kind == EventKind::Create || kind == EventKind::Modify;
    if kind == EventKind::Remove || (modified && !p.exists) {
        a_gone_path_is_removed(pending, kind, p);
        let i = choose|i: int|
            0 <= i < after.removed.len() && same_path(#[trigger] after.removed[i], p.path);
        writing_is_complete(after, roots, patterns, after.removed[i]);
        assert forall|q: Seq<char>| #[trigger] same_path(q, p.path) implies !all.contains(
            ActionView::InsertIfFile(q),
        ) by {
            writing_is_complete(after, roots, patterns, q);
            if after.changed.contains(q) {
                let k = choose|k: int| 0 <= k < after.changed.len() && after.changed[k] == q;
                assert(same_path(after.changed[k], p.path));
            }
        }
    } else if kind != EventKind::Remove && p.exists {
        a_path_that_is_there_is_changed(pending, kind, p);
        let i = choose|i: int|
            0 <= i < after.changed.len() && same_path(#[trigger] after.changed[i], p.path);
        writing_is_complete(after, roots, patterns, after.changed[i]);
    }
}

proof fn lemma_in_one(
    first: Seq<ActionView>,
    second: Seq<ActionView>,
    third: Seq<ActionView>,
    a: ActionView,
)
    requires
        a != ActionView::Prune,
    ensures
        (first + second + third + seq![ActionView::Prune]).contains(a) <==> first.contains(a)
            || second.contains(a) || third.contains(a),
{
    let all = first + second + third + seq![ActionView::Prune];
    if all.contains(a) {
        let k = choose|k: int| 0 <= k < all.len() && all[k] == a;
        if k < first.len() {
            assert(first[k] == a);
        } else if k < first.len() + second.len() {
            assert(second[k - first.len()] == a);
        } else if k < first.len() + second.len() + third.len() {
            assert(third[k - first.len() - second.len()] == a);
        }
    }
    if first.contains(a) {
        let k = choose|k: int| 0 <= k < first.len() && first[k] == a;
        assert(all[k] == a);
    }
    if second.contains(a) {
        let k = choose|k: int| 0 <= k < second.len() && second[k] == a;
        assert(all[first.len() + k] == a);
    }
    if third.contains(a) {
        let k = choose|k: int| 0 <= k < third.len() && third[k] == a;
        assert(all[first.len() + second.len() + k] == a);
    }
}

} // verus!
