//! The worker pool: the items queued for it and the decisions of one worker.

use crate::count::Count;
use crate::files::{tallies, FileCount, FileTally};
use crate::lang::Lang;
use crate::text::texts;
use vstd::prelude::*;

verus! {

/// The mathematical value of a work item.
pub enum WorkItem {
    File(Seq<char>),
    Quit,
}

/// One unit of queued work: a file to count, or the signal that ends a worker.
#[derive(Debug)]
pub enum Work {
    File(String),
    Quit,
}

impl View for Work {
    type V = WorkItem;

    open spec fn view(&self) -> WorkItem {
        match self {
            Work::File(path) => WorkItem::File(path@),
            Work::Quit => WorkItem::Quit,
        }
    }
}

/// The values of a list of work items, in order.
pub open spec fn work_views(items: Seq<Work>) -> Seq<WorkItem> {
    items.map_values(|w: Work| w@)
}

/// What the queue for a pool of `workers` holds once everything is queued:
/// one `File` per path, in order, then one `Quit` per worker.
pub open spec fn queue_for(paths: Seq<Seq<char>>, workers: nat) -> Seq<WorkItem> {
    Seq::new(
        paths.len() + workers,
        |i: int|
            if i < paths.len() {
                WorkItem::File(paths[i])
            } else {
                WorkItem::Quit
            },
    )
}

/// The items to queue for a pool of `workers`: every path as a `File`, then
/// exactly one `Quit` for each worker, so that no worker can meet its `Quit`
/// before all files are queued.
pub fn work_items(paths: Vec<String>, workers: usize) -> (items: Vec<Work>)
    ensures
        items.len() == paths.len() + workers,
        work_views(items@) == queue_for(texts(paths@), workers as nat),
{
    let mut items: Vec<Work> = Vec::new();
    let mut i: usize = 0;
    while i < paths.len()
        invariant
            i <= paths.len(),
            items.len() == i,
            forall|k: int| 0 <= k < i ==> (#[trigger] items[k])@ == WorkItem::File(paths[k]@),
        decreases paths.len() - i,
    {
        items.push(Work::File(paths[i].clone()));
        i = i + 1;
    }
    let mut q: usize = 0;
    while q < workers
        invariant
            q <= workers,
            items.len() == paths.len() + q,
            forall|k: int|
                0 <= k < paths.len() ==> (#[trigger] items[k])@ == WorkItem::File(paths[k]@),
            forall|k: int| paths.len() <= k < items.len() ==> (#[trigger] items[k])@ == WorkItem::Quit,
        decreases workers - q,
    {
        items.push(Work::Quit);
        q = q + 1;
    }
    assert(work_views(items@) =~= queue_for(texts(paths@), workers as nat));
    items
}

/// The stealing half of the work-stealing queue of the `deque` crate.
#[verifier::external_type_specification]
#[verifier::external_body]
#[verifier::reject_recursive_types(T)]
pub struct ExStealer<T: Send>(deque::Stealer<T>);

/// `num_cpus::get`: the number of logical CPUs available to the process.
/// Nothing is claimed of it.
#[verifier::external_body]
fn logical_cpus() -> (n: usize) {
    num_cpus::get()
}

/// The number of workers for a machine of `cpus` logical CPUs: one each, and
/// never none.
pub fn worker_count(cpus: usize) -> (n: usize)
    ensures
        n == if cpus == 0 { 1 } else { cpus },
{
    if cpus == 0 {
        1
    } else {
        cpus
    }
}

/// The number of workers of the pool on this machine: fixed once, at least
/// one.
pub fn pool_size() -> (n: usize)
    ensures
        n >= 1,
{
    worker_count(logical_cpus())
}

/// What a steal from the shared queue brought.
#[derive(Debug)]
pub enum Stolen {
    /// The queue was empty at that moment.
    Empty,
    /// Another stealer won the race; a retry may bring an item.
    Abort,
    /// An item, now owned by this worker alone.
    Data(Work),
}

/// What a worker does after a steal.
#[derive(Debug)]
pub enum Step {
    /// Nothing came: steal again.
    Retry,
    /// A file came: classify it, count it, and report back with `counted`.
    Examine(String),
    /// The `Quit` came: leave the loop and hand over the results.
    Stop,
}

/// The mathematical value of a step.
pub enum StepView {
    Retry,
    Examine(Seq<char>),
    Stop,
}

impl View for Step {
    type V = StepView;

    open spec fn view(&self) -> StepView {
        match self {
            Step::Retry => StepView::Retry,
            Step::Examine(path) => StepView::Examine(path@),
            Step::Stop => StepView::Stop,
        }
    }
}

/// The step that follows a steal: an empty queue or a lost race is no reason
/// to stop, only a `Quit` is.
pub open spec fn step_after(stolen: Stolen) -> StepView {
    match stolen {
        Stolen::Empty => StepView::Retry,
        Stolen::Abort => StepView::Retry,
        Stolen::Data(Work::Quit) => StepView::Stop,
        Stolen::Data(Work::File(path)) => StepView::Examine(path@),
    }
}

/// `deque::Stealer::steal`: one attempt to take an item off the shared
/// queue. What comes depends on the other threads; nothing is claimed of it.
#[verifier::external_body]
fn steal(chan: &deque::Stealer<Work>) -> (stolen: Stolen) {
    match chan.steal() {
        deque::Stolen::Empty => Stolen::Empty,
        deque::Stolen::Abort => Stolen::Abort,
        deque::Stolen::Data(work) => Stolen::Data(work),
    }
}

/// Whether every file of the list has a recognised language.
pub open spec fn all_recognized(files: Seq<FileTally>) -> bool {
    forall|i: int| 0 <= i < files.len() ==> (#[trigger] files[i]).lang is Named
}

/// One worker of the pool: the files it has counted so far, and whether it
/// has met its `Quit`. Its results never hold a file of no recognised
/// language.
pub struct Worker {
    results: Vec<FileCount>,
    stopped: bool,
}

impl Worker {
    /// The worker's invariant: its results hold recognised files only.
    pub closed spec fn wf(&self) -> bool {
        all_recognized(tallies(self.results@))
    }

    /// The files counted so far, in the order they were counted.
    pub closed spec fn results(&self) -> Seq<FileTally> {
        tallies(self.results@)
    }

    /// Whether the worker has met its `Quit`.
    pub closed spec fn stopped(&self) -> bool {
        self.stopped
    }

    /// A worker that has counted nothing and is running.
    pub fn new() -> (w: Worker)
        ensures
            w.wf(),
            w.results() == Seq::<FileTally>::empty(),
            !w.stopped(),
    {
        let w = Worker { results: Vec::new(), stopped: false };
        assert(w.results() =~= Seq::<FileTally>::empty());
        w
    }

    /// Whether the worker has met its `Quit`.
    pub fn is_stopped(&self) -> (b: bool)
        ensures
            b == self.stopped(),
    {
        self.stopped
    }

    /// Decides what follows a steal. Only a `Quit` stops the worker; no steal
    /// changes its results.
    pub fn on_stolen(&mut self, stolen: Stolen) -> (step: Step)
        requires
            old(self).wf(),
            !old(self).stopped(),
        ensures
            final(self).wf(),
            step@ == step_after(stolen),
            final(self).stopped() == (step@ is Stop),
            final(self).results() == old(self).results(),
    {
        match stolen {
            Stolen::Empty => Step::Retry,
            Stolen::Abort => Step::Retry,
            Stolen::Data(Work::Quit) => {
                self.stopped = true;
                Step::Stop
            },
            Stolen::Data(Work::File(path)) => Step::Examine(path),
        }
    }

    /// Steals once from the shared queue and decides what follows. Whatever
    /// the steal brings, the results stay as they are and the worker is
    /// stopped exactly if the step is `Stop`.
    pub fn poll(&mut self, chan: &deque::Stealer<Work>) -> (step: Step)
        requires
            old(self).wf(),
            !old(self).stopped(),
        ensures
            final(self).wf(),
            final(self).stopped() == (step@ is Stop),
            final(self).results() == old(self).results(),
    {
        let stolen = steal(chan);
        self.on_stolen(stolen)
    }

    /// Takes in the outcome of examining one file: a file of a recognised
    /// language joins the results, any other leaves no trace.
    pub fn counted(&mut self, path: String, lang: Lang, count: Count)
        requires
            old(self).wf(),
        ensures
            final(self).wf(),
            final(self).stopped() == old(self).stopped(),
            lang@ is Named ==> final(self).results() == old(self).results().push(
                FileTally { path: path@, lang: lang@, count: count@ },
            ),
            !(lang@ is Named) ==> final(self).results() == old(self).results(),
    {
        if lang.is_recognized() {
            let ghost before = self.results@;
            let ghost added = FileTally { path: path@, lang: lang@, count: count@ };
            self.results.push(FileCount { path, lang, count });
            assert(tallies(self.results@) =~= tallies(before).push(added));
        }
    }

    /// Hands over the results when the loop is left: the files counted, in
    /// the order they were counted, none of them of an unrecognised language.
    pub fn into_results(self) -> (files: Vec<FileCount>)
        requires
            self.wf(),
        ensures
            tallies(files@) == self.results(),
            all_recognized(tallies(files@)),
    {
        self.results
    }
}

/// Lists laid end to end.
pub open spec fn joined(parts: Seq<Seq<FileTally>>) -> Seq<FileTally>
    decreases parts.len(),
{
    if parts.len() == 0 {
        Seq::empty()
    } else {
        joined(parts.drop_last()) + parts.last()
    }
}

/// The values of the result lists of several workers.
pub open spec fn part_tallies(parts: Seq<Vec<FileCount>>) -> Seq<Seq<FileTally>> {
    parts.map_values(|part: Vec<FileCount>| tallies(part@))
}

/// Joins the result lists of the workers, in the order the workers are
/// joined, into the one list that is aggregated.
pub fn gather(parts: Vec<Vec<FileCount>>) -> (all: Vec<FileCount>)
    ensures
        tallies(all@) == joined(part_tallies(parts@)),
{
    let ghost views = part_tallies(parts@);
    let mut all: Vec<FileCount> = Vec::new();
    let mut p: usize = 0;
    assert(views.take(0) =~= Seq::<Seq<FileTally>>::empty());
    assert(tallies(all@) =~= joined(views.take(0)));
    while p < parts.len()
        invariant
            p <= parts.len(),
            views == part_tallies(parts@),
            tallies(all@) == joined(views.take(p as int)),
        decreases parts.len() - p,
    {
        let ghost start = all@;
        let part = &parts[p];
        let mut i: usize = 0;
        assert(tallies(part@).take(0) =~= Seq::<FileTally>::empty());
        assert(tallies(all@) =~= tallies(start) + tallies(part@).take(0));
        while i < part.len()
            invariant
                i <= part.len(),
                tallies(all@) == tallies(start) + tallies(part@).take(i as int),
            decreases part.len() - i,
        {
            let ghost before = all@;
            all.push(part[i].clone());
            assert(tallies(all@) =~= tallies(before).push(part[i as int]@));
            assert(tallies(part@).take(i + 1) =~= tallies(part@).take(i as int).push(
                part[i as int]@,
            ));
            assert(tallies(all@) =~= tallies(start) + tallies(part@).take(i + 1));
            i = i + 1;
        }
        proof {
            assert(tallies(part@).take(i as int) =~= tallies(part@));
            assert(views.take(p + 1).drop_last() =~= views.take(p as int));
            assert(views.take(p + 1).last() == tallies(part@));
        }
        p = p + 1;
    }
    assert(views.take(p as int) =~= views);
    all
}

} // verus!
