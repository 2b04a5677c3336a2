//! Incremental synchronization: change notifications are gathered until the
//! source has been quiet for a while, and then each changed path is applied
//! once, by its state at that moment.

use crate::ignore::{
    builtin_names, has_ignored_component, is_ignored_part, lemma_builtin_component_is_ignored,
    IgnoreMatcher,
};
use crate::path::{PartView, SyncPath};
use crate::sync::{map_src_to_dst, mapped, planned, EntryActionView, EntryKind};
use vstd::prelude::*;

verus! {

/// How long the source must have been quiet before pending changes are
/// applied, in milliseconds.
pub const DEBOUNCE_WINDOW_MS: u64 = 200;

/// The longest wait for a notification before the timer is looked at again,
/// in milliseconds.
pub const TICK_INTERVAL_MS: u64 = 1000;

/// The paths of `paths`, each as its model.
pub open spec fn path_views(paths: Seq<SyncPath>) -> Seq<Seq<PartView>> {
    Seq::new(paths.len(), |i: int| paths[i]@)
}

/// Adding one path adds its model at the end.
pub proof fn lemma_path_views_push(paths: Seq<SyncPath>, path: SyncPath)
    ensures
        path_views(paths.push(path)) == path_views(paths).push(path@),
{
    assert(path_views(paths.push(path)) =~= path_views(paths).push(path@));
}

/// The model of a `WatchState`.
pub struct WatchView {
    /// The changed paths that have not been applied yet, in the order in
    /// which they were first seen.
    pub pending: Seq<Seq<PartView>>,
    /// When the latest notification came, if one came since the last drain.
    pub last_event_at: Option<u64>,
}

/// `pending` with the paths of `paths` that it did not hold yet, in order.
pub open spec fn merged(pending: Seq<Seq<PartView>>, paths: Seq<Seq<PartView>>) -> Seq<
    Seq<PartView>,
>
    decreases paths.len(),
{
    if paths.len() == 0 {
        pending
    } else {
        let before = merged(pending, paths.drop_last());
        if before.contains(paths.last()) {
            before
        } else {
            before.push(paths.last())
        }
    }
}

/// The state with nothing pending and no timer running.
pub open spec fn idle() -> WatchView {
    WatchView { pending: Seq::empty(), last_event_at: None }
}

/// The state after a notification for `paths` that came at `now`: the paths
/// are pending, each once, and the timer starts anew.
pub open spec fn after_notification(
    state: WatchView,
    paths: Seq<Seq<PartView>>,
    now: u64,
) -> WatchView {
    WatchView { pending: merged(state.pending, paths), last_event_at: Some(now) }
}

/// Whether the pending changes of `state` are due at `now`: something is
/// pending, and the latest notification lies a debounce window or more back.
pub open spec fn settled(state: WatchView, now: u64) -> bool {
    &&& state.pending.len() > 0
    &&& state.last_event_at is Some
    &&& now - state.last_event_at->0 >= DEBOUNCE_WINDOW_MS
}

/// The paths to apply at a tick at `now`: all that is pending once it is due,
/// and nothing before.
pub open spec fn drained_at(state: WatchView, now: u64) -> Seq<Seq<PartView>> {
    if settled(state, now) {
        state.pending
    } else {
        Seq::empty()
    }
}

/// The state after a tick at `now`.
pub open spec fn after_tick(state: WatchView, now: u64) -> WatchView {
    if settled(state, now) {
        idle()
    } else {
        state
    }
}

/// What the driver reports to the watch engine.
#[derive(Debug)]
pub enum WatchEvent {
    /// A notification that names these source paths.
    Changed(Vec<SyncPath>),
    /// The wait for a notification ran out.
    Tick,
    /// The notifications have failed or come to an end.
    Failed,
}

/// A `WatchEvent` over path models.
pub enum WatchEventView {
    Changed(Seq<Seq<PartView>>),
    Tick,
    Failed,
}

impl View for WatchEvent {
    type V = WatchEventView;

    open spec fn view(&self) -> WatchEventView {
        match self {
            WatchEvent::Changed(paths) => WatchEventView::Changed(path_views(paths@)),
            WatchEvent::Tick => WatchEventView::Tick,
            WatchEvent::Failed => WatchEventView::Failed,
        }
    }
}

/// What the driver does after an event.
#[derive(Debug)]
pub enum WatchStep {
    /// Wait for the next event.
    Wait,
    /// Apply each of these source paths, in order, then wait.
    Apply(Vec<SyncPath>),
    /// End the watch with an error.
    Stop,
}

/// A `WatchStep` over path models.
pub enum WatchStepView {
    Wait,
    Apply(Seq<Seq<PartView>>),
    Stop,
}

impl View for WatchStep {
    type V = WatchStepView;

    open spec fn view(&self) -> WatchStepView {
        match self {
            WatchStep::Wait => WatchStepView::Wait,
            WatchStep::Apply(paths) => WatchStepView::Apply(path_views(paths@)),
            WatchStep::Stop => WatchStepView::Stop,
        }
    }
}

/// The state after `event`, which came at `now`.
pub open spec fn after_event(state: WatchView, event: WatchEventView, now: u64) -> WatchView {
    match event {
        WatchEventView::Changed(paths) => after_notification(state, paths, now),
        WatchEventView::Tick => after_tick(state, now),
        WatchEventView::Failed => state,
    }
}

/// What the driver does after `event`, which came at `now`: it applies the
/// pending paths at the tick at which they are due, stops when the
/// notifications have failed, and waits otherwise.
pub open spec fn step_of(state: WatchView, event: WatchEventView, now: u64) -> WatchStepView {
    match event {
        WatchEventView::Changed(_) => WatchStepView::Wait,
        WatchEventView::Tick => if settled(state, now) {
            WatchStepView::Apply(state.pending)
        } else {
            WatchStepView::Wait
        },
        WatchEventView::Failed => WatchStepView::Stop,
    }
}

/// Whether `path` is among `paths`.
fn holds_path(paths: &Vec<SyncPath>, path: &SyncPath) -> (held: bool)
    ensures
        held == path_views(paths@).contains(path@),
{
    let mut i: usize = 0;
    while i < paths.len()
        invariant
            i <= paths.len(),
            forall|j: int| 0 <= j < i ==> path_views(paths@)[j] != path@,
        decreases paths.len() - i,
    {
        if paths[i].same_as(path) {
            assert(path_views(paths@)[i as int] == path@);
            return true;
        }
        i += 1;
    }
    false
}

/// The changes seen since the last drain, and the time of the latest
/// notification. Times are milliseconds on a clock that never runs backwards.
#[derive(Debug)]
pub struct WatchState {
    pending: Vec<SyncPath>,
    last_event_at: Option<u64>,
}

impl View for WatchState {
    type V = WatchView;

    closed spec fn view(&self) -> WatchView {
        WatchView { pending: path_views(self.pending@), last_event_at: self.last_event_at }
    }
}

impl WatchState {
    /// No path is pending twice.
    #[verifier::type_invariant]
    closed spec fn no_path_twice(&self) -> bool {
        path_views(self.pending@).no_duplicates()
    }

    /// The state before any notification.
    pub fn new() -> (state: WatchState)
        ensures
            state@ == idle(),
    {
        let state = WatchState { pending: Vec::new(), last_event_at: None };
        assert(state@.pending =~= Seq::empty());
        state
    }

    /// Whether nothing is pending.
    pub fn is_idle(&self) -> (quiet: bool)
        ensures
            quiet == (self@.pending.len() == 0),
    {
        self.pending.len() == 0
    }

    /// The number of pending paths.
    pub fn pending_len(&self) -> (n: usize)
        ensures
            n == self@.pending.len(),
    {
        self.pending.len()
    }

    /// Takes in a notification for `paths` that came at `now`.
    pub fn on_notification(&mut self, paths: &Vec<SyncPath>, now: u64)
        ensures
            final(self)@ == after_notification(old(self)@, path_views(paths@), now),
    {
        proof {
            use_type_invariant(&*self);
        }
        let ghost before = self@.pending;
        let ghost seen = path_views(paths@);
        // The list is taken out while it grows and put back when it is
        // complete, so that the state is whole at every step.
        let mut pending: Vec<SyncPath> = Vec::new();
        assert(path_views(pending@) =~= Seq::empty());
        std::mem::swap(&mut self.pending, &mut pending);
        let mut i: usize = 0;
        assert(seen.take(0) =~= Seq::empty());
        while i < paths.len()
            invariant
                i <= paths.len(),
                seen == path_views(paths@),
                path_views(pending@) == merged(before, seen.take(i as int)),
                path_views(pending@).no_duplicates(),
            decreases paths.len() - i,
        {
            assert(seen.take(i + 1).drop_last() =~= seen.take(i as int));
            if !holds_path(&pending, &paths[i]) {
                let path = paths[i].clone();
                proof {
                    lemma_path_views_push(pending@, path);
                }
                pending.push(path);
            }
            i += 1;
        }
        assert(seen.take(i as int) =~= seen);
        std::mem::swap(&mut self.pending, &mut pending);
        self.last_event_at = Some(now);
    }

    /// Looks at the timer at `now`. Once the pending changes are due they are
    /// handed out, all of them and each once, and the state is idle again;
    /// before that nothing is handed out and nothing changes.
    pub fn on_tick(&mut self, now: u64) -> (due: Vec<SyncPath>)
        ensures
            final(self)@ == after_tick(old(self)@, now),
            path_views(due@) == drained_at(old(self)@, now),
            path_views(due@).no_duplicates(),
    {
        proof {
            use_type_invariant(&*self);
        }
        let mut due: Vec<SyncPath> = Vec::new();
        assert(path_views(due@) =~= Seq::empty());
        match self.last_event_at {
            Some(last) => {
                if now >= last && now - last >= DEBOUNCE_WINDOW_MS && self.pending.len() > 0 {
                    std::mem::swap(&mut self.pending, &mut due);
                    self.last_event_at = None;
                }
            },
            None => {},
        }
        due
    }

    /// One transition: takes in `event`, which came at `now`, and says what
    /// the driver does next.
    pub fn step(&mut self, event: &WatchEvent, now: u64) -> (next: WatchStep)
        ensures
            final(self)@ == after_event(old(self)@, event@, now),
            next@ == step_of(old(self)@, event@, now),
    {
        match event {
            WatchEvent::Changed(paths) => {
                self.on_notification(paths, now);
                WatchStep::Wait
            },
            WatchEvent::Tick => {
                let due = self.on_tick(now);
                assert(path_views(due@).len() == due@.len());
                if due.len() > 0 {
                    WatchStep::Apply(due)
                } else {
                    WatchStep::Wait
                }
            },
            WatchEvent::Failed => WatchStep::Stop,
        }
    }
}

/// What is found at a path when it is looked at.
#[derive(Clone, Copy, Debug, PartialEq, Eq)]
pub enum PathState {
    /// Nothing is there.
    Absent,
    /// A directory is there.
    Directory,
    /// Something else is there.
    File,
}

/// What is done for one changed source path.
#[derive(Debug, PartialEq, Eq)]
pub enum ChangeAction {
    /// Nothing: the path is ignored or lies outside the source root.
    Skip,
    /// Make sure that this destination directory exists, with all the
    /// directories above it.
    EnsureDir(SyncPath),
    /// Copy the source file to this destination file, whatever is there.
    CopyFile(SyncPath),
    /// Remove what is at this destination path.
    Remove(SyncPath),
}

/// A `ChangeAction` over path models.
pub enum ChangeActionView {
    Skip,
    EnsureDir(Seq<PartView>),
    CopyFile(Seq<PartView>),
    Remove(Seq<PartView>),
}

impl View for ChangeAction {
    type V = ChangeActionView;

    open spec fn view(&self) -> ChangeActionView {
        match self {
            ChangeAction::Skip => ChangeActionView::Skip,
            ChangeAction::EnsureDir(to) => ChangeActionView::EnsureDir(to@),
            ChangeAction::CopyFile(to) => ChangeActionView::CopyFile(to@),
            ChangeAction::Remove(to) => ChangeActionView::Remove(to@),
        }
    }
}

/// What is done for the changed path `path`, given what is at `path` now. The
/// notification's own account of the change plays no part: a path that is
/// there is mirrored, and one that is gone is removed from the destination.
pub open spec fn change_plan(
    src_root: Seq<PartView>,
    dst_root: Seq<PartView>,
    rules: Set<Seq<char>>,
    path: Seq<PartView>,
    source: PathState,
) -> ChangeActionView {
    if has_ignored_component(rules, path) {
        ChangeActionView::Skip
    } else {
        match (mapped(src_root, dst_root, path), source) {
            (None, _) => ChangeActionView::Skip,
            (Some(to), PathState::Directory) => ChangeActionView::EnsureDir(to),
            (Some(to), PathState::File) => ChangeActionView::CopyFile(to),
            (Some(to), PathState::Absent) => ChangeActionView::Remove(to),
        }
    }
}

/// What to do for the changed source path `path`, where `source` is what is
/// at `path` at this moment.
pub fn plan_change(
    src_root: &SyncPath,
    dst_root: &SyncPath,
    ignore: &IgnoreMatcher,
    path: &SyncPath,
    source: PathState,
) -> (action: ChangeAction)
    ensures
        action@ == change_plan(src_root@, dst_root@, ignore@, path@, source),
{
    if ignore.is_ignored(path) {
        return ChangeAction::Skip;
    }
    match map_src_to_dst(src_root, dst_root, path) {
        None => ChangeAction::Skip,
        Some(to) => match source {
            PathState::Directory => ChangeAction::EnsureDir(to),
            PathState::File => ChangeAction::CopyFile(to),
            PathState::Absent => ChangeAction::Remove(to),
        },
    }
}

/// How a destination entry is removed.
#[derive(Clone, Copy, Debug, PartialEq, Eq)]
pub enum RemovalAction {
    /// Nothing is to be done.
    Nothing,
    /// Remove the directory with all that it holds.
    RemoveTree,
    /// Remove the one file.
    RemoveFile,
}

/// How to remove a destination entry, given what is at its path now. Where
/// nothing is there, nothing is done, and that is no error.
pub fn handle_removal(dest: PathState) -> (action: RemovalAction)
    ensures
        action == match dest {
            PathState::Absent => RemovalAction::Nothing,
            PathState::Directory => RemovalAction::RemoveTree,
            PathState::File => RemovalAction::RemoveFile,
        },
{
    match dest {
        PathState::Absent => RemovalAction::Nothing,
        PathState::Directory => RemovalAction::RemoveTree,
        PathState::File => RemovalAction::RemoveFile,
    }
}

/// An event together with the time at which it came.
pub struct TimedEvent {
    pub event: WatchEventView,
    pub at: u64,
}

/// The state after the events of `events`, taken in order from `start`.
pub open spec fn state_after(start: WatchView, events: Seq<TimedEvent>) -> WatchView
    decreases events.len(),
{
    if events.len() == 0 {
        start
    } else {
        after_event(state_after(start, events.drop_last()), events.last().event, events.last().at)
    }
}

/// The paths handed out for applying while the events of `events` are taken
/// in order from `start`: one path for each time it is applied.
pub open spec fn applied_during(start: WatchView, events: Seq<TimedEvent>) -> Seq<Seq<PartView>>
    decreases events.len(),
{
    if events.len() == 0 {
        Seq::empty()
    } else {
        let before = state_after(start, events.drop_last());
        let now = match events.last().event {
            WatchEventView::Tick => drained_at(before, events.last().at),
            _ => Seq::empty(),
        };
        applied_during(start, events.drop_last()) + now
    }
}

/// The place of the latest notification among `events`, or -1 where there
/// is none.
pub open spec fn last_change(events: Seq<TimedEvent>) -> int
    decreases events.len(),
{
    if events.len() == 0 {
        -1
    } else if events.last().event is Changed {
        events.len() - 1
    } else {
        last_change(events.drop_last())
    }
}

/// Whether `events` is a burst for `path`: notifications for `path` alone,
/// the first of them first and however far apart, with ticks between them as
/// they may fall, each tick less than a debounce window after the
/// notification before it.
pub open spec fn is_burst_for(path: Seq<PartView>, events: Seq<TimedEvent>) -> bool {
    &&& events.len() > 0
    &&& events[0].event == WatchEventView::Changed(seq![path])
    &&& forall|k: int|
        0 <= k < events.len() ==> (#[trigger] events[k]).event == WatchEventView::Changed(
            seq![path],
        ) || events[k].event == WatchEventView::Tick
    &&& forall|k: int|
        0 <= k < events.len() && (#[trigger] events[k]).event is Tick ==> events[k].at
            - events[last_change(events.take(k))].at < DEBOUNCE_WINDOW_MS
}

/// The latest notification is one of the events, and there is one as soon as
/// the first event is one.
proof fn lemma_last_change(events: Seq<TimedEvent>)
    ensures
        -1 <= last_change(events) < events.len(),
        last_change(events) >= 0 ==> events[last_change(events)].event is Changed,
        events.len() > 0 && events[0].event is Changed ==> last_change(events) >= 0,
    decreases events.len(),
{
    if events.len() > 0 && !(events.last().event is Changed) {
        lemma_last_change(events.drop_last());
        if events.len() > 1 {
            assert(events.drop_last()[0] == events[0]);
        }
    }
}

/// Merging keeps a list free of repetitions free of them.
pub proof fn lemma_merged_no_duplicates(pending: Seq<Seq<PartView>>, paths: Seq<Seq<PartView>>)
    requires
        pending.no_duplicates(),
    ensures
        merged(pending, paths).no_duplicates(),
        forall|p: Seq<PartView>|
            merged(pending, paths).contains(p) <==> pending.contains(p) || paths.contains(p),
    decreases paths.len(),
{
    if paths.len() > 0 {
        let before = merged(pending, paths.drop_last());
        lemma_merged_no_duplicates(pending, paths.drop_last());
        assert forall|p: Seq<PartView>|
            merged(pending, paths).contains(p) <==> pending.contains(p) || paths.contains(
                p,
            ) by {
            if paths.contains(p) {
                let i = choose|i: int| 0 <= i < paths.len() && paths[i] == p;
                if i < paths.len() - 1 {
                    assert(paths.drop_last()[i] == p);
                }
            }
            if paths.drop_last().contains(p) {
                let i = choose|i: int| 0 <= i < paths.drop_last().len() && paths.drop_last()[i] == p;
                assert(paths[i] == p);
            }
            if before.contains(p) {
                let i = choose|i: int| 0 <= i < before.len() && before[i] == p;
                if !before.contains(paths.last()) {
                    assert(before.push(paths.last())[i] == p);
                }
            }
            if !before.contains(paths.last()) {
                assert(before.push(paths.last())[before.len() as int] == paths.last());
            }
        }
    }
}

/// Debounce coalescing. However many notifications for one path come, and
/// however far apart, as long as each tick between them comes less than a
/// debounce window after the notification before it: nothing is applied while
/// they come, the path is pending once, and the first tick that finds the
/// source quiet for a debounce window hands the path out once and leaves
/// nothing pending.
pub proof fn lemma_burst_is_applied_once(path: Seq<PartView>, events: Seq<TimedEvent>, now: u64)
    requires
        is_burst_for(path, events),
    ensures
        applied_during(idle(), events) == Seq::<Seq<PartView>>::empty(),
        state_after(idle(), events).pending == seq![path],
        0 <= last_change(events) < events.len(),
        state_after(idle(), events).last_event_at == Some(events[last_change(events)].at),
        now - events[last_change(events)].at >= DEBOUNCE_WINDOW_MS ==> step_of(
            state_after(idle(), events),
            WatchEventView::Tick,
            now,
        ) == WatchStepView::Apply(seq![path]) && after_event(
            state_after(idle(), events),
            WatchEventView::Tick,
            now,
        ) == idle(),
        now - events[last_change(events)].at < DEBOUNCE_WINDOW_MS ==> step_of(
            state_after(idle(), events),
            WatchEventView::Tick,
            now,
        ) == WatchStepView::Wait && after_event(
            state_after(idle(), events),
            WatchEventView::Tick,
            now,
        ) == state_after(idle(), events),
    decreases events.len(),
{
    let one = seq![path];
    let front = events.drop_last();
    let last = events.last();
    assert(one.drop_last() =~= Seq::<Seq<PartView>>::empty());
    assert(one.last() == path);
    lemma_last_change(events);
    if events.len() == 1 {
        assert(state_after(idle(), front) == idle());
        assert(applied_during(idle(), front) =~= Seq::<Seq<PartView>>::empty());
        assert(events.last() == events[0]);
        assert(merged(idle().pending, one.drop_last()) == idle().pending);
        assert(merged(idle().pending, one) =~= one);
        assert(applied_during(idle(), events) =~= Seq::<Seq<PartView>>::empty());
    } else {
        assert(front[0] == events[0]);
        assert(is_burst_for(path, front)) by {
            assert forall|k: int| 0 <= k < front.len() implies (#[trigger] front[k]).event
                == WatchEventView::Changed(seq![path]) || front[k].event
                == WatchEventView::Tick by {
                assert(front[k] == events[k]);
            }
            assert forall|k: int| 0 <= k < front.len() && (#[trigger] front[k]).event
                is Tick implies front[k].at - front[last_change(front.take(k))].at
                < DEBOUNCE_WINDOW_MS by {
                assert(front[k] == events[k]);
                assert(front.take(k) =~= events.take(k));
                lemma_last_change(events.take(k));
                if k > 0 {
                    assert(events.take(k)[0] == events[0]);
                }
                let j = last_change(events.take(k));
                assert(front[j] == events[j]);
            }
        }
        lemma_burst_is_applied_once(path, front, last.at);
        lemma_last_change(front);
        let before = state_after(idle(), front);
        assert(last == events[events.len() - 1]);
        assert(events.take(events.len() - 1) =~= front);
        assert(front[last_change(front)] == events[last_change(front)]);
        if last.event == WatchEventView::Tick {
            assert(last.at - events[last_change(front)].at < DEBOUNCE_WINDOW_MS);
            assert(!settled(before, last.at));
            assert(applied_during(idle(), events) =~= Seq::<Seq<PartView>>::empty());
        } else {
            assert(last.event == WatchEventView::Changed(one));
            assert(merged(before.pending, one.drop_last()) == before.pending);
            assert(before.pending.contains(path)) by {
                assert(before.pending[0] == path);
            }
            assert(merged(before.pending, one) == before.pending);
            assert(applied_during(idle(), events) =~= Seq::<Seq<PartView>>::empty());
        }
    }
}

/// Built-in names are never mirrored. Under a rule set that holds the
/// built-in names, a path with a built-in name among its components is
/// skipped by full synchronization and by the watch alike, whatever kind of
/// entry it is, whatever is found at it, and wherever the roots lie.
pub proof fn lemma_builtin_names_are_never_mirrored(
    src_root: Seq<PartView>,
    dst_root: Seq<PartView>,
    rules: Set<Seq<char>>,
    path: Seq<PartView>,
    i: int,
    kind: EntryKind,
    source: PathState,
)
    requires
        builtin_names().subset_of(rules),
        0 <= i < path.len(),
        is_ignored_part(builtin_names(), path[i]),
    ensures
        planned(src_root, dst_root, rules, path, kind) == EntryActionView::Skip,
        change_plan(src_root, dst_root, rules, path, source) == ChangeActionView::Skip,
{
    lemma_builtin_component_is_ignored(rules, path, i);
}

} // verus!
