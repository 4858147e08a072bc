//! The consumer side of a traversal: drains the event channel, folds each
//! event into the store, and tracks whether work is outstanding and how
//! long it took.

use vstd::prelude::*;
use vstd::string::StringExecFns;
use crossbeam::channel::{Receiver, Sender};
use crate::logger::{Logger, now_millis};
use crate::store::{DSHashmap, path_view, clone_path};
use crate::traversal::{TraversalEntry, fold_entry, fold_entry_spec, rows_consistent};
use crate::sync::paths_view;

verus! {

#[verifier::external_type_specification]
#[verifier::external_body]
#[verifier::reject_recursive_types(T)]
pub struct ExSender<T>(Sender<T>);

#[verifier::external_type_specification]
#[verifier::external_body]
#[verifier::reject_recursive_types(T)]
pub struct ExReceiver<T>(Receiver<T>);

/// Capacity of the event channel: a slow consumer makes the walker wait.
pub const EVENT_CHANNEL_CAPACITY: usize = 100;

/// Name of the timer that measures a traversal in the debug log.
pub const TRAVERSAL_TIMER: &'static str = "Traversal";

/// What the walker reports.
#[derive(Debug)]
pub enum TraversalEvent {
    /// An object was found.
    Entry(TraversalEntry),
    /// An object could not be read; the walk goes on.
    EntryError,
    /// The walk is over.
    Finished(u64),
}

/// Start and end of the current run, in milliseconds since the Unix epoch.
#[derive(Debug, Clone, Copy, PartialEq, Eq, Structural)]
pub struct TaskTimer {
    pub start: Option<u128>,
    pub finish: Option<u128>,
}

#[derive(Debug)]
pub struct TaskManager {
    pub event_tx: Sender<TraversalEvent>,
    pub event_rx: Receiver<TraversalEvent>,
    /// A traversal was dispatched and has not finished.
    pub is_working: bool,
    pub task_timer: TaskTimer,
}

/// Relies on `crossbeam::channel::bounded`: a channel that holds at most
/// `cap` messages; it panics only for a capacity too large to allocate.
#[verifier::external_body]
fn bounded_channel(cap: usize) -> (r: (Sender<TraversalEvent>, Receiver<TraversalEvent>))
    requires
        cap <= EVENT_CHANNEL_CAPACITY,
{
    crossbeam::channel::bounded(cap)
}

/// Relies on `crossbeam::channel::Receiver::try_recv`: a message if one is
/// waiting, without blocking. What arrives depends on the sending threads.
#[verifier::external_body]
fn try_receive(rx: &Receiver<TraversalEvent>) -> (r: Option<TraversalEvent>) {
    rx.try_recv().ok()
}

/// Relies on `crossbeam::channel::Receiver::len`: how many messages wait
/// now. Other threads may change it at any time.
#[verifier::external_body]
fn waiting(rx: &Receiver<TraversalEvent>) -> (r: usize) {
    rx.len()
}

/// The roots of `roots` that the store does not know yet, in order.
pub open spec fn unknown_roots(m: Map<Seq<Seq<char>>, crate::folder::FolderView>, roots: Seq<Seq<Seq<char>>>) -> Seq<Seq<Seq<char>>>
    decreases roots.len(),
{
    if roots.len() == 0 {
        roots
    } else if m.contains_key(roots.last()) {
        unknown_roots(m, roots.drop_last())
    } else {
        unknown_roots(m, roots.drop_last()).push(roots.last())
    }
}

impl TaskManager {
    /// An idle manager with a fresh event channel.
    pub fn new() -> (r: TaskManager)
        ensures
            !r.is_working,
            r.task_timer == (TaskTimer { start: None, finish: None }),
    {
        let (event_tx, event_rx) = bounded_channel(EVENT_CHANNEL_CAPACITY);
        TaskManager { event_tx, event_rx, is_working: false, task_timer: TaskTimer { start: None, finish: None } }
    }

    /// No traversal is dispatched or draining.
    pub fn is_done(&self) -> (r: bool)
        ensures
            r == !self.is_working,
    {
        !self.is_working
    }

    /// Queues `path` for traversal unless the store already has it; returns
    /// whether it was queued.
    pub fn maybe_add_task(&self, store: &DSHashmap, path: &Vec<String>, queue: &mut Vec<Vec<String>>) -> (r: bool)
        requires
            store.wf(),
        ensures
            r == !store@.contains_key(path_view(*path)),
            r ==> paths_view(final(queue)@) == paths_view(old(queue)@).push(path_view(*path)),
            !r ==> final(queue)@ == old(queue)@,
    {
        if !store.has_path(path) {
            let ghost before = queue@;
            let p = clone_path(path);
            queue.push(p);
            assert(path_view(p) =~= path_view(*path));
            assert(paths_view(queue@) =~= paths_view(before).push(path_view(*path)));
            true
        } else {
            false
        }
    }

    /// Decides which of `roots` to walk: those the store does not know yet.
    /// When there is any, marks the manager working, starts the traversal
    /// timer unless a run is already being timed, and starts the log timer.
    /// Returns the roots to walk; the caller runs the walker on them.
    pub fn start(&mut self, roots: &Vec<Vec<String>>, store: &DSHashmap, logger: &mut Logger) -> (r: Vec<Vec<String>>)
        requires
            store.wf(),
            old(logger).wf(),
        ensures
            final(logger).wf(),
            paths_view(r@) == unknown_roots(store@, paths_view(roots@)),
            final(self).is_working == (old(self).is_working || r@.len() > 0),
            r@.len() == 0 ==> final(self).task_timer == old(self).task_timer,
            r@.len() > 0 && old(self).task_timer.start is Some && old(self).task_timer.finish is None
                ==> final(self).task_timer == old(self).task_timer,
            r@.len() > 0 ==> final(self).task_timer.start is Some && final(self).task_timer.finish is None,
    {
        let mut queue: Vec<Vec<String>> = Vec::new();
        let mut i: usize = 0;
        while i < roots.len()
            invariant
                0 <= i <= roots@.len(),
                store.wf(),
                paths_view(queue@) == unknown_roots(store@, paths_view(roots@.subrange(0, i as int))),
            decreases roots@.len() - i,
        {
            assert(paths_view(roots@.subrange(0, i + 1)).drop_last() =~= paths_view(roots@.subrange(0, i as int)));
            assert(paths_view(roots@.subrange(0, i + 1)).last() == path_view(roots@[i as int]));
            self.maybe_add_task(store, &roots[i], &mut queue);
            i = i + 1;
        }
        assert(roots@.subrange(0, roots@.len() as int) =~= roots@);
        if queue.len() > 0 {
            self.is_working = true;
            if self.task_timer.start.is_none() || self.task_timer.finish.is_some() {
                self.task_timer = TaskTimer { start: Some(now_millis()), finish: None };
            }
            logger.start_timer(TRAVERSAL_TIMER);
        }
        queue
    }

    /// Folds one event: an entry goes into the store (see `fold_entry_spec`),
    /// an unreadable entry is logged, the end of the walk stops the manager
    /// and its timers.
    pub fn process_event(&mut self, store: &mut DSHashmap, logger: &mut Logger, event: TraversalEvent)
        requires
            old(store).wf(),
            old(logger).wf(),
        ensures
            final(store).wf(),
            final(logger).wf(),
            final(store).current_path == old(store).current_path,
            match event {
                TraversalEvent::Entry(e) => final(store)@ == fold_entry_spec(old(store)@, e)
                    && (rows_consistent(old(store)@) ==> rows_consistent(final(store)@))
                    && final(self).is_working == old(self).is_working
                    && final(self).task_timer == old(self).task_timer,
                TraversalEvent::EntryError => final(store)@ == old(store)@
                    && final(self).is_working == old(self).is_working
                    && final(self).task_timer == old(self).task_timer,
                TraversalEvent::Finished(_) => final(store)@ == old(store)@
                    && !final(self).is_working
                    && final(self).task_timer.start == old(self).task_timer.start
                    && (old(self).task_timer.start is Some ==> final(self).task_timer.finish is Some)
                    && (old(self).task_timer.finish is Some ==> final(self).task_timer.finish == old(self).task_timer.finish),
            },
    {
        match event {
            TraversalEvent::Entry(e) => {
                proof {
                    if rows_consistent(store@) {
                        crate::traversal::lemma_fold_keeps_rows_consistent(store@, e);
                    }
                }
                fold_entry(store, &e);
            },
            TraversalEvent::EntryError => {
                logger.log(String::from_str(UNREADABLE_ENTRY));
            },
            TraversalEvent::Finished(_) => {
                self.is_working = false;
                if self.task_timer.start.is_some() && self.task_timer.finish.is_none() {
                    self.task_timer.finish = Some(now_millis());
                }
                logger.stop_timer(TRAVERSAL_TIMER);
            },
        }
    }

    /// Folds the events waiting in the channel now, without blocking; later
    /// ones wait for the next call. What is received depends on the walker,
    /// so what is promised is what holds for any events: the store stays
    /// well formed, keeps its active path, and folder rows that showed their
    /// folders' totals still do.
    pub fn process_results(&mut self, store: &mut DSHashmap, logger: &mut Logger)
        requires
            old(store).wf(),
            old(logger).wf(),
        ensures
            final(store).wf(),
            final(logger).wf(),
            final(store).current_path == old(store).current_path,
            rows_consistent(old(store)@) ==> rows_consistent(final(store)@),
    {
        let n = waiting(&self.event_rx);
        let mut k: usize = 0;
        while k < n
            invariant
                store.wf(),
                logger.wf(),
                store.current_path == old(store).current_path,
                rows_consistent(old(store)@) ==> rows_consistent(store@),
            decreases n - k,
        {
            match try_receive(&self.event_rx) {
                Some(event) => self.process_event(store, logger, event),
                None => {
                    return;
                },
            }
            k = k + 1;
        }
    }

    /// Duration of the last finished run in milliseconds; `None` while no
    /// run has both started and finished.
    pub fn time_taken(&self) -> (r: Option<u128>)
        ensures
            r == match (self.task_timer.start, self.task_timer.finish) {
                (Some(s), Some(f)) => Some(if f >= s { (f - s) as u128 } else { 0 }),
                _ => None,
            },
    {
        match (self.task_timer.start, self.task_timer.finish) {
            (Some(s), Some(f)) => Some(if f >= s { f - s } else { 0 }),
            _ => None,
        }
    }
}

/// Logged when the walker could not read an entry.
pub const UNREADABLE_ENTRY: &'static str = "an entry could not be read";

} // verus!
