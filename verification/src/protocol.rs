//! The pool's protocol as a transition system, and what holds of every run
//! of it: each queued item goes to one worker, no worker is left waiting
//! for an item that never comes, and every worker ends by meeting its `Quit`.
//!
//! The system stands for a queue that hands each item to exactly one
//! stealer, oldest first. A steal that brings nothing changes nothing and is
//! no move of the system.

use crate::pool::{queue_for, step_after, StepView, Stolen, WorkItem};
use vstd::multiset::*;
use vstd::prelude::*;
use vstd::seq_lib::*;

verus! {

/// The pool at one moment.
pub struct Pool {
    /// The items that the coordinator has still to push, next one first.
    pub pending: Seq<WorkItem>,
    /// The items pushed and not yet stolen, oldest first.
    pub queue: Seq<WorkItem>,
    /// For each worker, whether it has not yet met its `Quit`.
    pub running: Seq<bool>,
    /// For each worker, the paths of the files it has stolen, in order.
    pub taken: Seq<Seq<Seq<char>>>,
}

/// One move of the pool.
pub enum Move {
    /// The coordinator pushes its next item.
    Push,
    /// A running worker steals the oldest item of the queue.
    Steal { worker: int },
}

/// The pool before anything is pushed or stolen.
pub open spec fn start(paths: Seq<Seq<char>>, workers: nat) -> Pool {
    Pool {
        pending: queue_for(paths, workers),
        queue: Seq::empty(),
        running: Seq::new(workers, |w: int| true),
        taken: Seq::new(workers, |w: int| Seq::empty()),
    }
}

/// Whether `m` can be made in `pool`.
pub open spec fn enabled(pool: Pool, m: Move) -> bool {
    match m {
        Move::Push => pool.pending.len() > 0,
        Move::Steal { worker } => {
            &&& 0 <= worker < pool.running.len()
            &&& pool.running[worker]
            &&& pool.queue.len() > 0
        },
    }
}

/// The pool after the move `m`.
pub open spec fn after(pool: Pool, m: Move) -> Pool {
    match m {
        Move::Push => Pool {
            pending: pool.pending.drop_first(),
            queue: pool.queue.push(pool.pending[0]),
            ..pool
        },
        Move::Steal { worker } => match pool.queue[0] {
            WorkItem::Quit => Pool {
                queue: pool.queue.drop_first(),
                running: pool.running.update(worker, false),
                ..pool
            },
            WorkItem::File(path) => Pool {
                queue: pool.queue.drop_first(),
                taken: pool.taken.update(worker, pool.taken[worker].push(path)),
                ..pool
            },
        },
    }
}

/// Whether the moves can be made one after the other, starting in `pool`.
pub open spec fn can_run(pool: Pool, moves: Seq<Move>) -> bool
    decreases moves.len(),
{
    if moves.len() == 0 {
        true
    } else {
        can_run(pool, moves.drop_last()) && enabled(run(pool, moves.drop_last()), moves.last())
    }
}

/// The pool after the moves, made one after the other.
pub open spec fn run(pool: Pool, moves: Seq<Move>) -> Pool
    decreases moves.len(),
{
    if moves.len() == 0 {
        pool
    } else {
        after(run(pool, moves.drop_last()), moves.last())
    }
}

/// The number of `Quit` items.
pub open spec fn quits(items: Seq<WorkItem>) -> nat
    decreases items.len(),
{
    if items.len() == 0 {
        0
    } else if items.last() is Quit {
        quits(items.drop_last()) + 1
    } else {
        quits(items.drop_last())
    }
}

/// The paths of the `File` items.
pub open spec fn file_paths(items: Seq<WorkItem>) -> Multiset<Seq<char>>
    decreases items.len(),
{
    if items.len() == 0 {
        Multiset::empty()
    } else {
        match items.last() {
            WorkItem::File(path) => file_paths(items.drop_last()).insert(path),
            WorkItem::Quit => file_paths(items.drop_last()),
        }
    }
}

/// The number of workers that run.
pub open spec fn running_count(running: Seq<bool>) -> nat
    decreases running.len(),
{
    if running.len() == 0 {
        0
    } else if running.last() {
        running_count(running.drop_last()) + 1
    } else {
        running_count(running.drop_last())
    }
}

/// The paths that the workers have stolen, all together.
pub open spec fn taken_paths(taken: Seq<Seq<Seq<char>>>) -> Multiset<Seq<char>>
    decreases taken.len(),
{
    if taken.len() == 0 {
        Multiset::empty()
    } else {
        taken_paths(taken.drop_last()).add(taken.last().to_multiset())
    }
}

/// The items on their way to the workers: the queue, then what is pending.
pub open spec fn line(pool: Pool) -> Seq<WorkItem> {
    pool.queue + pool.pending
}

/// The moves that a pool can still make at most.
pub open spec fn moves_left(pool: Pool) -> nat {
    2 * pool.pending.len() + pool.queue.len()
}

/// What holds of the pool at every moment of a run for `paths` and
/// `workers`: there is one `Quit` on its way for each running worker; each
/// path is on its way or with one worker, never both and never twice; no
/// file stands behind a `Quit`; and once a worker has stopped no file is on
/// its way any more.
pub open spec fn consistent(pool: Pool, paths: Seq<Seq<char>>, workers: nat) -> bool {
    &&& pool.running.len() == workers
    &&& pool.taken.len() == workers
    &&& quits(line(pool)) == running_count(pool.running)
    &&& file_paths(line(pool)).add(taken_paths(pool.taken)) == paths.to_multiset()
    &&& forall|i: int, j: int|
        0 <= i < j < line(pool).len() && line(pool)[i] is Quit ==> line(pool)[j] is Quit
    &&& running_count(pool.running) < workers ==> forall|i: int|
        0 <= i < line(pool).len() ==> line(pool)[i] is Quit
}

/// A steal of the system is the step that a worker takes on the item it
/// stole: the worker stops exactly if its step is `Stop`, and the paths it
/// has taken grow by the path it is handed to examine, if it is handed one.
pub proof fn lemma_steal_is_a_step(pool: Pool, worker: int, stolen: Stolen)
    requires
        enabled(pool, Move::Steal { worker }),
        0 <= worker < pool.taken.len(),
        stolen matches Stolen::Data(item) && item@ == pool.queue[0],
    ensures
        after(pool, Move::Steal { worker }).running[worker] == !(step_after(stolen) is Stop),
        after(pool, Move::Steal { worker }).taken[worker] == match step_after(stolen) {
            StepView::Examine(path) => pool.taken[worker].push(path),
            _ => pool.taken[worker],
        },
{
}

/// Taking the first item off changes the count of `Quit` items and the
/// paths of the `File` items by that item alone.
proof fn lemma_drop_first(items: Seq<WorkItem>)
    requires
        items.len() > 0,
    ensures
        quits(items) == quits(items.drop_first()) + if items[0] is Quit { 1nat } else { 0nat },
        file_paths(items) == match items[0] {
            WorkItem::File(path) => file_paths(items.drop_first()).insert(path),
            WorkItem::Quit => file_paths(items.drop_first()),
        },
    decreases items.len(),
{
    broadcast use group_multiset_axioms;

    if items.len() == 1 {
        assert(items.drop_first() =~= Seq::<WorkItem>::empty());
        assert(items.drop_last() =~= Seq::<WorkItem>::empty());
        assert(items.last() == items[0]);
    } else {
        lemma_drop_first(items.drop_last());
        assert(items.drop_last().drop_first() =~= items.drop_first().drop_last());
        assert(items.drop_last()[0] == items[0]);
        assert(items.drop_first().last() == items.last());
        let rest = file_paths(items.drop_first().drop_last());
        match (items[0], items.last()) {
            (WorkItem::File(a), WorkItem::File(b)) => {
                assert(rest.insert(a).insert(b) =~= rest.insert(b).insert(a));
            },
            _ => {},
        }
    }
}

/// A list of `Quit` items only counts as many `Quit` items as it is long.
proof fn lemma_all_quits(items: Seq<WorkItem>)
    requires
        forall|i: int| 0 <= i < items.len() ==> items[i] is Quit,
    ensures
        quits(items) == items.len(),
    decreases items.len(),
{
    if items.len() > 0 {
        lemma_all_quits(items.drop_last());
    }
}

/// A list that counts `Quit` items has items.
proof fn lemma_quits_bound(items: Seq<WorkItem>)
    ensures
        quits(items) <= items.len(),
    decreases items.len(),
{
    if items.len() > 0 {
        lemma_quits_bound(items.drop_last());
    }
}

/// A worker that stops is one running worker less.
proof fn lemma_one_stops(running: Seq<bool>, worker: int)
    requires
        0 <= worker < running.len(),
        running[worker],
    ensures
        running_count(running.update(worker, false)) + 1 == running_count(running),
    decreases running.len(),
{
    let changed = running.update(worker, false);
    if worker == running.len() - 1 {
        assert(changed.drop_last() =~= running.drop_last());
    } else {
        lemma_one_stops(running.drop_last(), worker);
        assert(changed.drop_last() =~= running.drop_last().update(worker, false));
    }
}

/// No more workers run than there are, and where some run, one can be named.
proof fn lemma_some_runs(running: Seq<bool>) -> (worker: int)
    ensures
        running_count(running) <= running.len(),
        running_count(running) > 0 ==> 0 <= worker < running.len() && running[worker],
    decreases running.len(),
{
    if running.len() == 0 {
        0
    } else if running.last() {
        lemma_some_runs(running.drop_last());
        running.len() - 1
    } else {
        lemma_some_runs(running.drop_last())
    }
}

/// A path stolen by one worker is one path more among those stolen.
proof fn lemma_one_takes(taken: Seq<Seq<Seq<char>>>, worker: int, path: Seq<char>)
    requires
        0 <= worker < taken.len(),
    ensures
        taken_paths(taken.update(worker, taken[worker].push(path))) == taken_paths(taken).insert(
            path,
        ),
    decreases taken.len(),
{
    broadcast use {group_multiset_axioms, group_to_multiset_ensures};

    let changed = taken.update(worker, taken[worker].push(path));
    if worker == taken.len() - 1 {
        assert(changed.drop_last() =~= taken.drop_last());
        assert(taken_paths(changed) =~= taken_paths(taken).insert(path));
    } else {
        lemma_one_takes(taken.drop_last(), worker, path);
        assert(changed.drop_last() =~= taken.drop_last().update(worker, taken[worker].push(path)));
        assert(taken_paths(changed) =~= taken_paths(taken).insert(path));
    }
}

/// Where nothing was stolen at all, no worker has stolen anything.
proof fn lemma_nothing_taken(taken: Seq<Seq<Seq<char>>>, worker: int)
    requires
        0 <= worker < taken.len(),
        taken_paths(taken).len() == 0,
    ensures
        taken[worker].len() == 0,
    decreases taken.len(),
{
    broadcast use {group_multiset_axioms, group_to_multiset_ensures};

    if worker < taken.len() - 1 {
        lemma_nothing_taken(taken.drop_last(), worker);
    }
}

/// What is queued for a pool holds one `Quit` per worker and the paths.
proof fn lemma_queue_for(paths: Seq<Seq<char>>, workers: nat)
    ensures
        quits(queue_for(paths, workers)) == workers,
        file_paths(queue_for(paths, workers)) == paths.to_multiset(),
    decreases paths.len() + workers,
{
    broadcast use {group_multiset_axioms, group_to_multiset_ensures};

    let items = queue_for(paths, workers);
    if workers > 0 {
        lemma_queue_for(paths, (workers - 1) as nat);
        assert(items.drop_last() =~= queue_for(paths, (workers - 1) as nat));
    } else if paths.len() > 0 {
        lemma_queue_for(paths.drop_last(), 0);
        assert(items.drop_last() =~= queue_for(paths.drop_last(), 0));
        assert(paths =~= paths.drop_last().push(paths.last()));
        assert(items.last() == WorkItem::File(paths.last()));
    } else {
        assert(paths.to_multiset() =~= Multiset::empty());
    }
}

/// At the start all workers run and none has stolen anything.
proof fn lemma_fresh_workers(workers: nat)
    ensures
        running_count(Seq::new(workers, |w: int| true)) == workers,
        taken_paths(Seq::new(workers, |w: int| Seq::<Seq<char>>::empty())) == Multiset::<
            Seq<char>,
        >::empty(),
    decreases workers,
{
    broadcast use {group_multiset_axioms, group_to_multiset_ensures};

    if workers > 0 {
        lemma_fresh_workers((workers - 1) as nat);
        let running = Seq::new(workers, |w: int| true);
        assert(running.drop_last() =~= Seq::new((workers - 1) as nat, |w: int| true));
        let taken = Seq::new(workers, |w: int| Seq::<Seq<char>>::empty());
        assert(taken.drop_last() =~= Seq::new(
            (workers - 1) as nat,
            |w: int| Seq::<Seq<char>>::empty(),
        ));
        assert(taken_paths(taken) =~= Multiset::<Seq<char>>::empty());
    }
}

/// The pool is consistent before anything is pushed or stolen.
pub proof fn lemma_start_consistent(paths: Seq<Seq<char>>, workers: nat)
    ensures
        consistent(start(paths, workers), paths, workers),
        moves_left(start(paths, workers)) == 2 * (paths.len() + workers),
{
    broadcast use group_multiset_axioms;

    let pool = start(paths, workers);
    lemma_queue_for(paths, workers);
    lemma_fresh_workers(workers);
    assert(line(pool) =~= queue_for(paths, workers));
    assert(file_paths(line(pool)).add(taken_paths(pool.taken)) =~= paths.to_multiset());
}

/// Every move keeps the pool consistent and leaves one move less to make.
pub proof fn lemma_move_keeps_consistent(pool: Pool, m: Move, paths: Seq<Seq<char>>, workers: nat)
    requires
        consistent(pool, paths, workers),
        enabled(pool, m),
    ensures
        consistent(after(pool, m), paths, workers),
        moves_left(after(pool, m)) + 1 == moves_left(pool),
{
    broadcast use group_multiset_axioms;

    let next = after(pool, m);
    match m {
        Move::Push => {
            assert(line(next) =~= line(pool));
        },
        Move::Steal { worker } => {
            assert(line(next) =~= line(pool).drop_first());
            assert(line(pool)[0] == pool.queue[0]);
            lemma_drop_first(line(pool));
            assert forall|i: int, j: int|
                0 <= i < j < line(next).len() && line(next)[i] is Quit implies line(next)[j] is Quit by {
                assert(line(next)[i] == line(pool)[i + 1]);
                assert(line(next)[j] == line(pool)[j + 1]);
            }
            match pool.queue[0] {
                WorkItem::Quit => {
                    lemma_one_stops(pool.running, worker);
                    lemma_some_runs(pool.running);
                    assert forall|i: int| 0 <= i < line(next).len() implies line(next)[i] is Quit by {
                        assert(line(next)[i] == line(pool)[i + 1]);
                    }
                },
                WorkItem::File(path) => {
                    lemma_one_takes(pool.taken, worker, path);
                    assert(file_paths(line(next)).add(taken_paths(next.taken)) =~= file_paths(
                        line(pool),
                    ).add(taken_paths(pool.taken)));
                    assert(!(line(pool)[0] is Quit));
                },
            }
        },
    }
}

/// Every run keeps the pool consistent and is no longer than two moves for
/// each file and each worker: no run goes on for ever.
pub proof fn lemma_every_run_ends(paths: Seq<Seq<char>>, workers: nat, moves: Seq<Move>)
    requires
        can_run(start(paths, workers), moves),
    ensures
        consistent(run(start(paths, workers), moves), paths, workers),
        moves.len() + moves_left(run(start(paths, workers), moves)) == 2 * (paths.len() + workers),
    decreases moves.len(),
{
    if moves.len() == 0 {
        lemma_start_consistent(paths, workers);
    } else {
        lemma_every_run_ends(paths, workers, moves.drop_last());
        lemma_move_keeps_consistent(
            run(start(paths, workers), moves.drop_last()),
            moves.last(),
            paths,
            workers,
        );
    }
}

/// While a worker runs a move can be made: the coordinator has an item to
/// push, or a running worker has an item to steal. No worker waits for an
/// item that never comes.
pub proof fn lemma_no_deadlock(pool: Pool, paths: Seq<Seq<char>>, workers: nat) -> (m: Move)
    requires
        consistent(pool, paths, workers),
        running_count(pool.running) > 0,
    ensures
        enabled(pool, m),
{
    if pool.pending.len() > 0 {
        Move::Push
    } else {
        assert(line(pool) =~= pool.queue);
        lemma_quits_bound(pool.queue);
        let worker = lemma_some_runs(pool.running);
        Move::Steal { worker }
    }
}

/// Once no worker runs, nothing is left on its way and every path has gone
/// to a worker exactly once.
pub proof fn lemma_all_stopped(pool: Pool, paths: Seq<Seq<char>>, workers: nat)
    requires
        consistent(pool, paths, workers),
        workers > 0,
        running_count(pool.running) == 0,
    ensures
        pool.pending.len() == 0,
        pool.queue.len() == 0,
        taken_paths(pool.taken) == paths.to_multiset(),
{
    broadcast use group_multiset_axioms;

    lemma_all_quits(line(pool));
    assert(line(pool).len() == 0);
    assert(taken_paths(pool.taken) =~= file_paths(line(pool)).add(taken_paths(pool.taken)));
}

/// With no files to count no worker ever steals a file: each ends with the
/// empty list of results it began with.
pub proof fn lemma_no_files_no_results(pool: Pool, workers: nat, worker: int)
    requires
        consistent(pool, Seq::empty(), workers),
        0 <= worker < workers,
    ensures
        pool.taken[worker].len() == 0,
{
    broadcast use {group_multiset_axioms, group_to_multiset_ensures};

    assert(Seq::<Seq<char>>::empty().to_multiset().len() == 0);
    assert(taken_paths(pool.taken).len() == 0);
    lemma_nothing_taken(pool.taken, worker);
}

} // verus!
