//! The decisions of one run: what to report, and whether to notify and save.
use vstd::prelude::*;
use crate::state::{Diff, IdChecksum, Snapshot};

verus! {

/// How many records a run reported.
pub struct BotStats {
    pub changed: usize,
    pub added: usize,
}

impl BotStats {
    pub fn from_diff<T>(diff: &Diff<T>) -> (r: BotStats)
        ensures
            r.changed == diff.changed@.len(),
            r.added == diff.added@.len(),
    {
        BotStats { changed: diff.changed.len(), added: diff.added.len() }
    }
}

/// What a run does with a freshly scraped batch.
pub struct RunPlan<T> {
    /// The records to report.
    pub diff: Diff<T>,
    /// Whether to send notifications: something was added or changed.
    pub notify: bool,
    /// Whether to save the batch's snapshot: on a first run, or when
    /// something was added or changed. It is saved after notifying succeeds.
    pub persist: bool,
}

/// Plans a run of `items` against the prior snapshot. Without one, the whole
/// batch is reported as added and the snapshot is saved.
pub fn plan_run<T: IdChecksum>(prior: Option<&Snapshot>, items: Vec<T>) -> (r: RunPlan<T>)
    ensures
        match prior {
            Some(s) => r.diff.is_diff_of(s.state_map(), items@),
            None => r.diff.added@ == items@ && r.diff.changed@ == Seq::<T>::empty(),
        },
        r.notify == (r.diff.added@.len() > 0 || r.diff.changed@.len() > 0),
        r.persist == (prior is None || r.notify),
{
    let diff = match prior {
        Some(s) => s.diff(items),
        None => Diff { added: items, changed: Vec::new() },
    };
    let notify = diff.added.len() > 0 || diff.changed.len() > 0;
    let persist = match prior {
        Some(_) => notify,
        None => true,
    };
    RunPlan { diff, notify, persist }
}

} // verus!
