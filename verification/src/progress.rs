//! How far a task has come.
use vstd::prelude::*;
use crate::order::{lemma_filter_increasing, lemma_filter_no_duplicates, positions};

verus! {

/// Counters of a running task: how much work was found, how much of it is done,
/// and whether the task has ended. The counters wrap around.
#[derive(Debug, Clone, Copy, PartialEq, Eq, Structural)]
pub struct ProgressState {
    pub count: usize,
    pub done: usize,
    pub complete: bool,
}

impl ProgressState {
    /// Nothing found, nothing done.
    pub fn new() -> (state: Self)
        ensures
            state == (ProgressState { count: 0, done: 0, complete: false }),
    {
        Self { count: 0, done: 0, complete: false }
    }

    /// One more piece of work was found.
    pub fn found(&mut self)
        ensures
            *final(self) == (ProgressState { count: old(self).count.wrapping_add(1), ..*old(self) }),
    {
        self.count = self.count.wrapping_add(1);
    }

    /// One more piece of work is done.
    pub fn finished_one(&mut self)
        ensures
            *final(self) == (ProgressState { done: old(self).done.wrapping_add(1), ..*old(self) }),
    {
        self.done = self.done.wrapping_add(1);
    }

    /// The amount of work is known to be `count`.
    pub fn expect(&mut self, count: usize)
        ensures
            *final(self) == (ProgressState { count, ..*old(self) }),
    {
        self.count = count;
    }

    /// The task has ended.
    pub fn end(&mut self)
        ensures
            *final(self) == (ProgressState { complete: true, ..*old(self) }),
    {
        self.complete = true;
    }
}

/// Tells of a task whether it has ended.
pub open spec fn has_ended(tasks: Seq<ProgressState>, ended: bool) -> spec_fn(usize) -> bool {
    |k: usize| tasks[k as int].complete == ended
}

/// The tasks that are still running, first started first.
pub open spec fn running(tasks: Seq<ProgressState>) -> Seq<usize> {
    positions(0, tasks.len() as int).filter(has_ended(tasks, false))
}

/// The tasks that have ended, last started first.
pub open spec fn ended(tasks: Seq<ProgressState>) -> Seq<usize> {
    positions(0, tasks.len() as int).filter(has_ended(tasks, true)).reverse()
}

fn tasks_that(tasks: &[ProgressState], have_ended: bool) -> (found: Vec<usize>)
    ensures
        found@ == positions(0, tasks@.len() as int).filter(has_ended(tasks@, have_ended)),
{
    let mut found: Vec<usize> = Vec::new();
    let mut k: usize = 0;
    let n: usize = tasks.len();
    proof {
        assert(positions(0, 0) =~= Seq::<usize>::empty());
        reveal(Seq::filter);
    }
    while k < n
        invariant
            n == tasks@.len(),
            k <= n,
            found@ == positions(0, k as int).filter(has_ended(tasks@, have_ended)),
        decreases n - k,
    {
        let ghost before = positions(0, k as int);
        if tasks[k].complete == have_ended {
            found.push(k);
        }
        proof {
            assert(positions(0, k + 1) =~= before.push(k));
            before.lemma_filter_push(k, has_ended(tasks@, have_ended));
        }
        k = k + 1;
    }
    found
}

/// The tasks to show as running, in the order in which they were started.
pub fn running_tasks(tasks: &[ProgressState]) -> (found: Vec<usize>)
    ensures
        found@ == running(tasks@),
{
    tasks_that(tasks, false)
}

/// The tasks to show as ended, the latest first.
pub fn ended_tasks(tasks: &[ProgressState]) -> (found: Vec<usize>)
    ensures
        found@ == ended(tasks@),
{
    let in_order = tasks_that(tasks, true);
    let mut found: Vec<usize> = Vec::new();
    let mut k: usize = in_order.len();
    while k > 0
        invariant
            k <= in_order@.len(),
            found@ =~= in_order@.skip(k as int).reverse(),
        decreases k,
    {
        k = k - 1;
        found.push(in_order[k]);
    }
    assert(in_order@.skip(0) =~= in_order@);
    found
}

proof fn lemma_shown(tasks: Seq<ProgressState>, k: usize, have_ended: bool)
    requires
        k < tasks.len() <= usize::MAX,
    ensures
        ({
            let found = positions(0, tasks.len() as int).filter(has_ended(tasks, have_ended));
            &&& found.no_duplicates()
            &&& found.contains(k) <==> tasks[k as int].complete == have_ended
        }),
{
    let all = positions(0, tasks.len() as int);
    let pred = has_ended(tasks, have_ended);
    let found = all.filter(pred);
    assert(all.no_duplicates());
    lemma_filter_no_duplicates(all, pred);
    if tasks[k as int].complete == have_ended {
        assert(all[k as int] == k);
        all.lemma_filter_contains(pred, k as int);
    }
    if found.contains(k) {
        let q = choose|q: int| 0 <= q < found.len() && found[q] == k;
        all.lemma_filter_pred(pred, q);
    }
}

/// Every task is shown exactly once, either as running or as ended.
pub proof fn law_every_task_is_shown(tasks: Seq<ProgressState>, k: usize)
    requires
        k < tasks.len() <= usize::MAX,
    ensures
        running(tasks).contains(k) <==> !tasks[k as int].complete,
        ended(tasks).contains(k) <==> tasks[k as int].complete,
        running(tasks).no_duplicates(),
        ended(tasks).no_duplicates(),
{
    let all = positions(0, tasks.len() as int);
    assert(all[k as int] == k);
    assert(all.contains(k));
    assert(all.no_duplicates());
    lemma_shown(tasks, k, false);
    lemma_shown(tasks, k, true);
    let last_first = ended(tasks);
    let in_order = all.filter(has_ended(tasks, true));
    if in_order.contains(k) {
        let q = choose|q: int| 0 <= q < in_order.len() && in_order[q] == k;
        assert(last_first[in_order.len() - 1 - q] == k);
    }
    if last_first.contains(k) {
        let q = choose|q: int| 0 <= q < last_first.len() && last_first[q] == k;
        assert(in_order[in_order.len() - 1 - q] == k);
    }
}

/// Running tasks are shown in the order in which they were started, ended ones the
/// other way round, and nothing else is shown.
pub proof fn law_tasks_in_order(tasks: Seq<ProgressState>, a: int, b: int)
    requires
        tasks.len() <= usize::MAX,
        0 <= a < b,
    ensures
        b < running(tasks).len() ==> running(tasks)[a] < running(tasks)[b] < tasks.len(),
        b < ended(tasks).len() ==> tasks.len() > ended(tasks)[a] > ended(tasks)[b],
{
    let all = positions(0, tasks.len() as int);
    lemma_filter_increasing(tasks.len() as int, has_ended(tasks, false));
    lemma_filter_increasing(tasks.len() as int, has_ended(tasks, true));
    let run = all.filter(has_ended(tasks, false));
    let done = all.filter(has_ended(tasks, true));
    if b < run.len() {
        all.lemma_filter_contains_rev(has_ended(tasks, false), run[b]);
        let q = choose|q: int| 0 <= q < all.len() && all[q] == run[b];
    }
    if b < done.len() {
        let top = done[done.len() - 1 - a];
        all.lemma_filter_contains_rev(has_ended(tasks, true), top);
        let q = choose|q: int| 0 <= q < all.len() && all[q] == top;
    }
}

} // verus!
