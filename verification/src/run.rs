//! What the progress of a scan tells of what has happened in it.
use vstd::prelude::*;
use std::path::PathBuf;
use crate::entry::{root_model, EntryModel};
use crate::progress::ProgressState;
use crate::scan::{progress_after, ListingEvent, ScanEvent};
use crate::totals::{all_have_place, all_inserted, files_among, law_scan_counts_what_was_found};

verus! {

/// The progress of a scan in which these events have happened, in this order.
pub open spec fn progress_over(run: Seq<ScanEvent>) -> ProgressState
    decreases run.len(),
{
    if run.len() == 0 {
        ProgressState { count: 0, done: 0, complete: false }
    } else {
        progress_after(progress_over(run.drop_last()), run.last())
    }
}

/// The event is one of finding a file or a directory, which is then queued.
pub open spec fn is_queued(event: ScanEvent) -> bool {
    match event {
        ScanEvent::Listed(ListingEvent::Found { is_dir, is_file, .. }) => is_dir || is_file,
        _ => false,
    }
}

/// The event is one of finding something else, which is passed over.
pub open spec fn is_passed_over(event: ScanEvent) -> bool {
    match event {
        ScanEvent::Listed(ListingEvent::Found { is_dir, is_file, .. }) => !is_dir && !is_file,
        _ => false,
    }
}

/// The number of entries that were queued.
pub open spec fn queued(run: Seq<ScanEvent>) -> nat
    decreases run.len(),
{
    if run.len() == 0 {
        0
    } else {
        queued(run.drop_last()) + if is_queued(run.last()) {
            1nat
        } else {
            0nat
        }
    }
}

/// The number of items that were passed over.
pub open spec fn passed_over(run: Seq<ScanEvent>) -> nat
    decreases run.len(),
{
    if run.len() == 0 {
        0
    } else {
        passed_over(run.drop_last()) + if is_passed_over(run.last()) {
            1nat
        } else {
            0nat
        }
    }
}

/// The number of directories that have been read.
pub open spec fn directories_read(run: Seq<ScanEvent>) -> nat
    decreases run.len(),
{
    if run.len() == 0 {
        0
    } else {
        directories_read(run.drop_last()) + if run.last() is DirectoryRead {
            1nat
        } else {
            0nat
        }
    }
}

/// The entries that were put into the tree, in order.
pub open spec fn accepted(run: Seq<ScanEvent>) -> Seq<EntryModel>
    decreases run.len(),
{
    if run.len() == 0 {
        Seq::empty()
    } else {
        match run.last() {
            ScanEvent::Accepted(x) => accepted(run.drop_last()).push(x),
            _ => accepted(run.drop_last()),
        }
    }
}

/// Nothing is left to do: all that was queued is in the tree, and every directory
/// there has been read.
pub open spec fn all_handled(run: Seq<ScanEvent>) -> bool {
    &&& accepted(run).len() == queued(run)
    &&& directories_read(run) + files_among(accepted(run)) == accepted(run).len()
}

/// The number of entries that are pending: queued, and not yet done. A file is done
/// when it is in the tree, a directory when it has been read.
pub open spec fn pending_over(run: Seq<ScanEvent>) -> int
    decreases run.len(),
{
    if run.len() == 0 {
        0
    } else {
        let before = pending_over(run.drop_last());
        match run.last() {
            ScanEvent::Accepted(x) => if x.is_file {
                before - 1
            } else {
                before
            },
            ScanEvent::DirectoryRead => before - 1,
            ScanEvent::Listed(_) => if is_queued(run.last()) {
                before + 1
            } else {
                before
            },
        }
    }
}

/// Only what was queued is in the tree, and only directories that are in the tree
/// have been read.
pub open spec fn in_order(run: Seq<ScanEvent>) -> bool {
    &&& accepted(run).len() <= queued(run)
    &&& directories_read(run) + files_among(accepted(run)) <= accepted(run).len()
}

/// The entries pending are those queued, less the files in the tree and the
/// directories read.
pub proof fn law_pending_counts(run: Seq<ScanEvent>)
    ensures
        pending_over(run) == queued(run) - files_among(accepted(run)) - directories_read(run),
    decreases run.len(),
{
    if run.len() > 0 {
        law_pending_counts(run.drop_last());
        if let ScanEvent::Accepted(x) = run.last() {
            let before = accepted(run.drop_last());
            assert(before.push(x).drop_last() =~= before);
            assert(before.push(x).last() == x);
        }
    }
}

/// A scan in which as much is done as was queued has nothing left to do.
pub proof fn law_done_as_much_as_queued(run: Seq<ScanEvent>)
    requires
        queued(run) == files_among(accepted(run)) + directories_read(run),
        in_order(run),
    ensures
        all_handled(run),
{
}

/// A scan may end exactly when nothing is pending: then, and only then, everything
/// queued is in the tree and every directory there has been read.
pub proof fn law_nothing_pending(run: Seq<ScanEvent>)
    requires
        in_order(run),
    ensures
        pending_over(run) >= 0,
        pending_over(run) == 0 <==> all_handled(run),
{
    law_pending_counts(run);
    if pending_over(run) == 0 {
        law_done_as_much_as_queued(run);
    }
}

/// At any time `count` is the number of items found, queued or passed over, and
/// `done` the number of files in the tree and of directories read.
pub proof fn law_progress_counts(run: Seq<ScanEvent>)
    requires
        run.len() <= usize::MAX,
    ensures
        progress_over(run).count == queued(run) + passed_over(run),
        progress_over(run).done == files_among(accepted(run)) + directories_read(run),
        !progress_over(run).complete,
        queued(run) + passed_over(run) <= run.len(),
        files_among(accepted(run)) + directories_read(run) <= run.len(),
    decreases run.len(),
{
    if run.len() > 0 {
        law_progress_counts(run.drop_last());
        if let ScanEvent::Accepted(x) = run.last() {
            let before = accepted(run.drop_last());
            assert(before.push(x).drop_last() =~= before);
            assert(before.push(x).last() == x);
        }
    }
}

/// When nothing is left to do, `done` is the number of entries put into the tree,
/// and `count` exceeds it by the items that were passed over.
pub proof fn law_progress_at_the_end(run: Seq<ScanEvent>)
    requires
        run.len() <= usize::MAX,
        all_handled(run),
    ensures
        progress_over(run).done == accepted(run).len(),
        progress_over(run).count == progress_over(run).done + passed_over(run),
{
    law_progress_counts(run);
}

/// When nothing is left to do, the tree holds as many entries as are done, and the
/// one that the scan started from.
pub proof fn law_progress_matches_tree(path: PathBuf, len: u64, run: Seq<ScanEvent>)
    requires
        run.len() <= usize::MAX,
        all_handled(run),
        all_have_place(seq![root_model(path, false, len)], Seq::empty(), accepted(run)),
    ensures
        all_inserted(seq![root_model(path, false, len)], accepted(run)).len() == progress_over(
            run,
        ).done + 1,
{
    law_progress_at_the_end(run);
    law_scan_counts_what_was_found(path, len, accepted(run), None);
}

} // verus!
